//! The selection and drag controller, contact-driven stacking, and the
//! per-tick movement pass.

use vstd::prelude::*;

use crate::chain::{
    chain, lemma_chain_le_len, lemma_chain_no_dup, lemma_chain_shape, lemma_chain_step,
    lemma_member_back, mirror_ok, points_to, settles,
};
use crate::coord::{clamp_coord, coord_add, coord_mul_count};
use crate::progress_bar::{BarEntity, ProgressBar};
use crate::sim::{
    lemma_wf_bars_rewire, lemma_wf_frame, lemma_wf_positions_frame, same_card_apart_positions,
    HoverPoint, Simulation, SELECT_LIFT_Z, STACK_OFFSET_Y, STACK_OFFSET_Z,
};
use crate::sim::StackType;
use crate::stack::stack_step_rel;
use crate::tile::{in_slot_footprint, within_slot_footprint, Tile};

verus! {

/// Which of a contacting pair lands on which: the card with greater depth is
/// placed atop the other; on equal depth the lower id becomes the base, so
/// the outcome never depends on event order.
pub open spec fn contact_orientation_spec(e1: int, e2: int, z1: int, z2: int) -> (int, int) {
    if z1 > z2 {
        (e1, e2)
    } else if z2 > z1 {
        (e2, e1)
    } else if e1 < e2 {
        (e2, e1)
    } else {
        (e1, e2)
    }
}

/// Orient one contact pair into `(top candidate, base candidate)`.
pub fn orient_contact(e1: usize, e2: usize, z1: i64, z2: i64) -> (r: (usize, usize))
    ensures
        (r.0 as int, r.1 as int) == contact_orientation_spec(
            e1 as int,
            e2 as int,
            z1 as int,
            z2 as int,
        ),
{
    if z1 > z2 {
        (e1, e2)
    } else if z2 > z1 {
        (e2, e1)
    } else if e1 < e2 {
        (e2, e1)
    } else {
        (e1, e2)
    }
}

/// One contact event, as a relation between states: a malformed pair (an
/// unknown id, or a card touching itself) changes nothing; a well-formed one
/// is oriented by depth and tried as a stacking step.
pub open spec fn contact_step_rel(o: Simulation, s: Simulation, e1: int, e2: int) -> bool {
    if 0 <= e1 < o.n() && 0 <= e2 < o.n() && e1 != e2 {
        let orient = contact_orientation_spec(
            e1,
            e2,
            o.cards@[e1].z as int,
            o.cards@[e2].z as int,
        );
        stack_step_rel(o, s, orient.0, orient.1)
    } else {
        s == o
    }
}

/// The whole contact pass: a chain of states, one stacking step per contact
/// event, in event order.
pub open spec fn contacts_processed(
    o: Simulation,
    s: Simulation,
    contacts: Seq<(usize, usize)>,
) -> bool
    decreases contacts.len(),
{
    if contacts.len() == 0 {
        s == o
    } else {
        exists|mid: Simulation|
            #[trigger] contact_step_rel(o, mid, contacts[0].0 as int, contacts[0].1 as int)
                && contacts_processed(mid, s, contacts.skip(1))
    }
}

/// Extending a processed chain by one more step at its end.
pub proof fn lemma_contacts_processed_snoc(
    o: Simulation,
    m: Simulation,
    s: Simulation,
    contacts: Seq<(usize, usize)>,
    e: (usize, usize),
)
    requires
        contacts_processed(o, m, contacts),
        contact_step_rel(m, s, e.0 as int, e.1 as int),
    ensures
        contacts_processed(o, s, contacts.push(e)),
    decreases contacts.len(),
{
    if contacts.len() == 0 {
        assert(m == o);
        assert(contacts.push(e)[0] == e);
        assert(contacts.push(e).skip(1) =~= Seq::<(usize, usize)>::empty());
        assert(contact_step_rel(o, s, e.0 as int, e.1 as int));
        assert(contacts_processed(s, s, contacts.push(e).skip(1)));
    } else {
        let mid = choose|mid: Simulation|
            #[trigger] contact_step_rel(o, mid, contacts[0].0 as int, contacts[0].1 as int)
                && contacts_processed(mid, m, contacts.skip(1));
        lemma_contacts_processed_snoc(mid, m, s, contacts.skip(1), e);
        assert(contacts.push(e)[0] == contacts[0]);
        assert(contacts.push(e).skip(1) =~= contacts.skip(1).push(e));
        assert(contact_step_rel(o, mid, contacts.push(e)[0].0 as int, contacts.push(e)[0].1 as int)
            && contacts_processed(mid, s, contacts.push(e).skip(1)));
    }
}

/// The pickup effect on a hit, player-controlled card `e` while nothing is
/// held: the card is pulled out of its tile slot (the slot cleared, the
/// production timer despawned), detached from its parent (which is severed
/// and queued; `e` itself is promoted to a pending, queued root when it kept
/// a child), and selected. Nothing else — no other card, tile, timer, entry
/// or queue flag — changes.
pub open spec fn pointer_down_active(o: Simulation, s: Simulation, e: usize) -> bool {
    &&& s.selected_card == Option::Some(e)
    &&& s.cards@.len() == o.cards@.len()
    &&& s.tiles@.len() == o.tiles@.len()
    &&& s.bars@.len() == o.bars@.len()
    &&& s.cards@[e as int].slotted_in_tile is None
    &&& s.cards@[e as int].stack_parent is None
    &&& s.cards@[e as int].stack_child == o.cards@[e as int].stack_child
    &&& s.cards@[e as int].info == o.cards@[e as int].info
    &&& s.cards@[e as int].x == o.cards@[e as int].x
    &&& s.cards@[e as int].y == o.cards@[e as int].y
    &&& s.cards@[e as int].z == o.cards@[e as int].z
    &&& (match o.cards@[e as int].slotted_in_tile {
        Option::Some(t) => {
            &&& s.tiles@[t as int].slotted_villager is None
            &&& s.tiles@[t as int].progress_bar is None
            &&& s.tiles@[t as int].grid_x == o.tiles@[t as int].grid_x
            &&& s.tiles@[t as int].grid_y == o.tiles@[t as int].grid_y
            &&& s.tiles@[t as int].kind == o.tiles@[t as int].kind
            &&& forall|t2: int|
                0 <= t2 < o.tiles@.len() && t2 != t as int ==> s.tiles@[t2]
                    == #[trigger] o.tiles@[t2]
            &&& (match o.tiles@[t as int].progress_bar {
                Option::Some(b) => !s.bars@[b as int].alive && s.bars@[b as int].bar == o.bars@[
                    b as int
                ].bar && forall|b2: int|
                    0 <= b2 < o.bars@.len() && b2 != b as int ==> s.bars@[b2]
                        == #[trigger] o.bars@[b2],
                Option::None => false,
            })
        },
        Option::None => s.tiles == o.tiles && s.bars == o.bars,
    })
    &&& (match o.cards@[e as int].stack_parent {
        Option::Some(p) => {
            &&& s.cards@[p as int].stack_child is None
            &&& s.cards@[p as int].stack_parent == o.cards@[p as int].stack_parent
            &&& s.cards@[p as int].slotted_in_tile == o.cards@[p as int].slotted_in_tile
            &&& s.cards@[p as int].info == o.cards@[p as int].info
            &&& s.cards@[p as int].x == o.cards@[p as int].x
            &&& s.cards@[p as int].y == o.cards@[p as int].y
            &&& s.cards@[p as int].z == o.cards@[p as int].z
            &&& forall|i: int|
                0 <= i < o.n() && i != e as int && i != p as int ==> s.cards@[i]
                    == #[trigger] o.cards@[i]
            &&& s.stack_roots.queued@[p as int]
            &&& s.stack_roots.queued@[e as int] == (o.stack_roots.queued@[e as int] || o.cards@[
                e as int
            ].stack_child is Some)
            &&& forall|k: int|
                0 <= k < o.n() && k != p as int && k != e as int ==> s.stack_roots.queued@[k]
                    == #[trigger] o.stack_roots.queued@[k]
            &&& ((o.cards@[e as int].stack_child is Some && o.stack_roots.roots@[e as int]
                is None) ==> s.stack_roots.roots@[e as int] == Option::Some(StackType::Pending))
            &&& (!(o.cards@[e as int].stack_child is Some && o.stack_roots.roots@[e as int]
                is None) ==> s.stack_roots.roots@[e as int] == o.stack_roots.roots@[e as int])
            &&& forall|k: int|
                0 <= k < o.n() && k != e as int ==> s.stack_roots.roots@[k]
                    == #[trigger] o.stack_roots.roots@[k]
        },
        Option::None => {
            &&& forall|i: int|
                0 <= i < o.n() && i != e as int ==> s.cards@[i] == #[trigger] o.cards@[i]
            &&& s.stack_roots.roots == o.stack_roots.roots
            &&& s.stack_roots.queued == o.stack_roots.queued
        },
    })
    &&& s.hover_point == o.hover_point
    &&& s.hovered_tile == o.hovered_tile
}

/// Everything `pointer_down` leaves behind: a no-op while holding, on a
/// miss, on an unknown id or on a card the player does not control; the
/// pickup effect otherwise.
pub open spec fn pointer_down_post(o: Simulation, s: Simulation, hit: Option<usize>) -> bool {
    &&& (o.selected_card is Some ==> s == o)
    &&& (hit is None ==> s == o)
    &&& (o.selected_card is None ==> match hit {
        Option::Some(e) => {
            if (e as int) < o.n() && o.cards@[e as int].is_player_controlled_spec() {
                pointer_down_active(o, s, e)
            } else {
                s == o
            }
        },
        Option::None => true,
    })
}

/// Everything `pointer_up` leaves behind: nothing is held any more; with
/// nothing held it is a no-op; a released loose card over the hovered
/// tile's free slot footprint is slotted there — the tile records it, a
/// fresh production countdown starts over the full production duration —
/// and any other release changes nothing but the selection.
pub open spec fn pointer_up_post(o: Simulation, s: Simulation) -> bool {
    &&& s.selected_card is None
    &&& s.tiles@.len() == o.tiles@.len()
    &&& s.cards@.len() == o.cards@.len()
    &&& s.stack_roots.roots == o.stack_roots.roots
    &&& s.stack_roots.queued == o.stack_roots.queued
    &&& s.hover_point == o.hover_point
    &&& s.hovered_tile == o.hovered_tile
    &&& (o.selected_card is None ==> s == o)
    &&& (o.selected_card matches Some(e) ==> (match o.release_slot_target(e as int) {
        Option::Some(t) => {
            &&& s.tiles@[t].slotted_villager == Option::Some(e)
            &&& s.tiles@[t].progress_bar == Option::Some(o.bars@.len() as usize)
            &&& s.tiles@[t].grid_x == o.tiles@[t].grid_x
            &&& s.tiles@[t].grid_y == o.tiles@[t].grid_y
            &&& s.tiles@[t].kind == o.tiles@[t].kind
            &&& s.cards@[e as int].slotted_in_tile matches Some(t2) && t2 as int == t
            &&& s.cards@[e as int].stack_parent == o.cards@[e as int].stack_parent
            &&& s.cards@[e as int].stack_child == o.cards@[e as int].stack_child
            &&& s.cards@[e as int].info == o.cards@[e as int].info
            &&& s.cards@[e as int].x == o.cards@[e as int].x
            &&& s.cards@[e as int].y == o.cards@[e as int].y
            &&& s.cards@[e as int].z == o.cards@[e as int].z
            &&& s.bars@ == o.bars@.push(
                BarEntity {
                    bar: ProgressBar {
                        current_ms: 0,
                        total_ms: crate::tile::PRODUCTION_DURATION_MS,
                    },
                    alive: true,
                },
            )
            &&& forall|t2: int|
                0 <= t2 < o.tiles@.len() && t2 != t ==> s.tiles@[t2] == #[trigger] o.tiles@[t2]
            &&& forall|i: int|
                0 <= i < o.n() && i != e as int ==> s.cards@[i] == #[trigger] o.cards@[i]
        },
        Option::None => {
            &&& s.cards == o.cards
            &&& s.tiles == o.tiles
            &&& s.bars == o.bars
        },
    }))
}

/// Everything `set_hover` leaves behind: the hover point replaced, nothing
/// else.
pub open spec fn hover_set_post(o: Simulation, s: Simulation, hover: Option<HoverPoint>) -> bool {
    s == Simulation { hover_point: hover, ..o }
}

/// Everything `move_cards` leaves behind: only positions changed — the held
/// card follows the pointer, lifted; slotted cards sit on their tiles; loose
/// cards settle on the board plane; registered stacks cascade below their
/// roots.
pub open spec fn move_cards_post(o: Simulation, s: Simulation) -> bool {
    &&& s.cards@.len() == o.cards@.len()
    &&& forall|i: int|
        0 <= i < o.n() ==> same_card_apart_positions(#[trigger] s.cards@[i], o.cards@[i])
    &&& forall|i: int| 0 <= i < o.n() && !in_cascade(o, i) ==> base_position_ok(o, s, i)
    &&& forall|k: int| cascade_root(o, k) ==> cascade_ok(o, s, k)
    &&& s.tiles == o.tiles
    &&& s.bars == o.bars
    &&& s.stack_roots.roots == o.stack_roots.roots
    &&& s.stack_roots.queued == o.stack_roots.queued
    &&& s.selected_card == o.selected_card
    &&& s.hover_point == o.hover_point
    &&& s.hovered_tile == o.hovered_tile
}

/// What the embedding reports about the pointer this tick.
#[derive(Clone, Copy, PartialEq, Eq, Structural, Debug)]
pub struct PointerInput {
    /// Where the pointer ray meets the board plane, if it does.
    pub hover: Option<HoverPoint>,
    /// The button went down this tick.
    pub pressed: bool,
    /// The topmost card under the pointer when it went down.
    pub clicked: Option<usize>,
    /// The button went up this tick.
    pub released: bool,
}

impl Simulation {
    /// Record where the pointer ray meets the board plane this tick.
    pub fn set_hover(&mut self, hover: Option<HoverPoint>)
        requires
            old(self).wf(),
        ensures
            final(self).wf(),
            hover_set_post(*old(self), *final(self), hover),
    {
        let ghost o = *old(self);
        self.hover_point = hover;
        proof {
            lemma_wf_frame(o, *self);
            assert(*self == Simulation { hover_point: hover, ..o });
        }
    }

    /// Feed one tick's contact events into the graph: each pair is oriented
    /// by depth and then tried as a stacking move. Pairs that fail a
    /// precondition are skipped silently — contacts race against earlier
    /// mutations by design.
    pub fn collide_cards(&mut self, contacts: &Vec<(usize, usize)>)
        requires
            old(self).wf(),
        ensures
            final(self).wf(),
            final(self).cards@.len() == old(self).cards@.len(),
            final(self).tiles == old(self).tiles,
            final(self).bars == old(self).bars,
            final(self).selected_card == old(self).selected_card,
            final(self).hover_point == old(self).hover_point,
            final(self).hovered_tile == old(self).hovered_tile,
            contacts_processed(*old(self), *final(self), contacts@),
            contacts@.len() == 0 ==> *final(self) == *old(self),
    {
        let ghost o = *old(self);
        proof {
            assert(contacts@.take(0) =~= Seq::<(usize, usize)>::empty());
        }
        let mut i: usize = 0;
        while i < contacts.len()
            invariant
                self.wf(),
                i <= contacts@.len(),
                self.cards@.len() == o.cards@.len(),
                self.tiles == o.tiles,
                self.bars == o.bars,
                self.selected_card == o.selected_card,
                self.hover_point == o.hover_point,
                self.hovered_tile == o.hovered_tile,
                contacts_processed(o, *self, contacts@.take(i as int)),
                i == 0 ==> *self == o,
            decreases contacts@.len() - i,
        {
            let ghost prev = *self;
            let (e1, e2) = contacts[i];
            if e1 < self.cards.len() && e2 < self.cards.len() && e1 != e2 {
                let z1 = self.cards[e1].z;
                let z2 = self.cards[e2].z;
                let (top, base) = orient_contact(e1, e2, z1, z2);
                self.attempt_stack(top, base);
            }
            proof {
                assert(contact_step_rel(prev, *self, e1 as int, e2 as int));
                lemma_contacts_processed_snoc(o, prev, *self, contacts@.take(i as int), (e1, e2));
                assert(contacts@.take(i as int).push((e1, e2)) =~= contacts@.take(i as int + 1));
            }
            i = i + 1;
        }
        proof {
            assert(contacts@.take(contacts@.len() as int) =~= contacts@);
        }
    }

    /// Pointer went down over `hit`. While a card is already held this is a
    /// no-op; otherwise a player-controlled hit card is pulled out of its
    /// tile slot (cancelling the tile's production timer) and out of its
    /// stack, and becomes the held card, keeping whatever sub-stack hangs
    /// below it.
    pub fn pointer_down(&mut self, hit: Option<usize>)
        requires
            old(self).wf(),
        ensures
            final(self).wf(),
            pointer_down_post(*old(self), *final(self), hit),
    {
        if self.selected_card.is_some() {
            return ;
        }
        let e = match hit {
            Some(e) => e,
            None => {
                return ;
            },
        };
        if e >= self.cards.len() {
            return ;
        }
        let c = self.cards[e];
        if !c.is_player_controlled() {
            return ;
        }
        let ghost o = *old(self);
        // pull the card out of its tile slot, cancelling production
        match c.slotted_in_tile {
            Some(t) => {
                proof {
                    assert(o.card_slot_ok(e as int));
                    assert(o.tile_slot_ok(t as int));
                }
                let tl = self.tiles[t];
                match tl.progress_bar {
                    Some(b) => {
                        proof {
                            assert(o.tile_owns_bar(t as int, b as int));
                            assert(o.bar_live(b as int));
                        }
                        self.despawn_bar(b);
                    },
                    None => {
                        proof {
                            assert(false);
                        }
                    },
                }
                let mut tm = tl;
                tm.slotted_villager = None;
                tm.progress_bar = None;
                self.tiles[t] = tm;
                let mut cm = self.cards[e];
                cm.slotted_in_tile = None;
                self.cards[e] = cm;
                proof {
                    let s = *self;
                    assert(s.child_links() =~= o.child_links());
                    assert(s.parent_links() =~= o.parent_links());
                    assert forall|i: int| 0 <= i < s.n() implies #[trigger] s.card_slot_ok(i) by {
                        assert(o.card_slot_ok(i));
                        if i != e as int {
                            match o.cards@[i].slotted_in_tile {
                                Option::Some(t2) => {
                                    assert(o.tile_slot_ok(t2 as int));
                                    assert(t2 != t);
                                },
                                Option::None => {},
                            }
                        }
                    }
                    assert forall|t2: int|
                        0 <= t2 < s.tiles@.len() implies #[trigger] s.tile_slot_ok(t2) by {
                        assert(o.tile_slot_ok(t2));
                        if t2 != t as int {
                            match o.tiles@[t2].slotted_villager {
                                Option::Some(c2) => {
                                    assert(o.card_slot_ok(c2 as int));
                                    assert(c2 != e);
                                },
                                Option::None => {},
                            }
                        }
                    }
                    assert forall|k: int| 0 <= k < s.n() implies #[trigger] s.registry_ok(k) by {
                        assert(o.registry_ok(k));
                    }
                    // the cancelled production timer was the tile's alone:
                    // every other owner keeps its live timer
                    match o.tiles@[t as int].progress_bar {
                        Option::Some(b) => {
                            let pb = b as int;
                            assert(o.tile_owns_bar(t as int, pb));
                            assert forall|k: int, b2: int|
                                #[trigger] s.root_owns_bar(k, b2) implies (o.root_owns_bar(
                                k,
                                b2,
                            ) || b2 >= o.bars@.len()) && s.bar_live(b2) by {
                                assert(o.root_owns_bar(k, b2));
                                assert(o.bar_live(b2));
                                assert(b2 != pb) by {
                                    if b2 == pb {
                                        assert(!(o.root_owns_bar(k, pb) && o.tile_owns_bar(
                                            t as int,
                                            pb,
                                        )));
                                    }
                                }
                            }
                            assert forall|t2: int, b2: int|
                                #[trigger] s.tile_owns_bar(t2, b2) implies (o.tile_owns_bar(
                                t2,
                                b2,
                            ) || b2 >= o.bars@.len()) && s.bar_live(b2) by {
                                assert(t2 != t as int);
                                assert(o.tile_owns_bar(t2, b2));
                                assert(o.bar_live(b2));
                                assert(b2 != pb) by {
                                    if b2 == pb {
                                        assert(t2 == t as int);
                                    }
                                }
                            }
                            assert forall|k: int, b2: int|
                                #[trigger] o.root_owns_bar(k, b2) && s.bar_live(b2) && b2
                                < o.bars@.len() implies s.root_owns_bar(k, b2) by {}
                            assert forall|t2: int, b2: int|
                                #[trigger] o.tile_owns_bar(t2, b2) && s.bar_live(b2) && b2
                                < o.bars@.len() implies s.tile_owns_bar(t2, b2) by {
                                assert(b2 != pb);
                                assert(t2 != t as int) by {
                                    if t2 == t as int {
                                        assert(b2 == pb);
                                    }
                                }
                            }
                            assert forall|b2: int|
                                0 <= b2 < s.bars@.len() implies (#[trigger] s.bars@[b2]).bar.wf() by {
                                assert(o.bars@[b2].bar.wf());
                            }
                            lemma_wf_bars_rewire(o, s);
                        },
                        Option::None => {},
                    }
                    assert forall|i: int|
                        0 <= i < s.n() implies (#[trigger] s.cards@[i]).info.stats.wf() by {
                        assert(o.cards@[i].info.stats.wf());
                    }
                    assert forall|t1: int, t2: int|
                        0 <= t1 < s.tiles@.len() && 0 <= t2 < s.tiles@.len()
                            && #[trigger] s.tile_grid(t1) == #[trigger] s.tile_grid(
                        t2,
                        ) implies t1 == t2 by {
                        assert(o.tile_grid(t1) == s.tile_grid(t1));
                        assert(o.tile_grid(t2) == s.tile_grid(t2));
                    }
                }
            },
            None => {},
        }
        // detach from the stack, then hold the card
        let ghost unslotted = *self;
        self.unstack(e);
        let ghost before_select = *self;
        self.selected_card = Some(e);
        proof {
            assert(self.cards@[e as int].slotted_in_tile is None);
            assert(self.cards@[e as int].stack_parent is None);
            lemma_wf_frame(before_select, *self);
            // the unslot step touched only card `e`, its tile and its timer;
            // the unstack step touched only `e`, its old parent and the
            // registry at those keys
            assert(unslotted.cards@[e as int].stack_parent == o.cards@[e as int].stack_parent);
            assert(unslotted.stack_roots.roots == o.stack_roots.roots);
            assert(unslotted.stack_roots.queued == o.stack_roots.queued);
            match o.cards@[e as int].stack_parent {
                Option::Some(p) => {
                    assert forall|i: int|
                        0 <= i < o.n() && i != e as int && i != p as int implies self.cards@[i]
                        == #[trigger] o.cards@[i] by {
                        assert(self.cards@[i] == unslotted.cards@[i]);
                        assert(unslotted.cards@[i] == o.cards@[i]);
                    }
                    assert forall|k: int|
                        0 <= k < o.n() && k != p as int && k != e as int implies self
                        .stack_roots.queued@[k] == #[trigger] o.stack_roots.queued@[k] by {
                        assert(self.stack_roots.queued@[k] == unslotted.stack_roots.queued@[k]);
                    }
                    assert forall|k: int|
                        0 <= k < o.n() && k != e as int implies self.stack_roots.roots@[k]
                        == #[trigger] o.stack_roots.roots@[k] by {
                        assert(self.stack_roots.roots@[k] == unslotted.stack_roots.roots@[k]);
                    }
                },
                Option::None => {
                    assert(before_select == unslotted);
                    assert forall|i: int|
                        0 <= i < o.n() && i != e as int implies self.cards@[i]
                        == #[trigger] o.cards@[i] by {
                        assert(self.cards@[i] == unslotted.cards@[i]);
                    }
                },
            }
            assert(pointer_down_active(o, *self, e));
        }
    }

    /// Whether and where a released card slots: it must be loose (not in a
    /// stack), a tile must be hovered, and the pointer must sit inside that
    /// tile's slot footprint; the tile itself must accept the card (free
    /// slot, villager).
    pub open spec fn release_slot_target(self, e: int) -> Option<int> {
        if self.cards@[e].in_stack_spec() {
            Option::None
        } else {
            match self.hovered_tile {
                Option::Some(t) => match self.hover_point {
                    Option::Some(hp) => if within_slot_footprint(
                        Tile::grid_axis_to_world(self.tiles@[t as int].grid_x as int),
                        Tile::grid_axis_to_world(self.tiles@[t as int].grid_y as int),
                        hp.x as int,
                        hp.y as int,
                    ) && self.tiles@[t as int].slotted_villager is None && self.cards@[
                        e
                    ].class_spec() == crate::card::CardClass::Villager {
                        Option::Some(t as int)
                    } else {
                        Option::None
                    },
                    Option::None => Option::None,
                },
                Option::None => Option::None,
            }
        }
    }

    /// Pointer went up. The held card, if any, is released; a loose card
    /// dropped over the hovered tile's slot footprint is slotted there.
    /// Stacking is never attempted here: cards stack through the next
    /// contact event, not synchronously on release.
    pub fn pointer_up(&mut self)
        requires
            old(self).wf(),
        ensures
            final(self).wf(),
            pointer_up_post(*old(self), *final(self)),
    {
        let e = match self.selected_card {
            Some(e) => e,
            None => {
                return ;
            },
        };
        let ghost o = *old(self);
        self.selected_card = None;
        proof {
            lemma_wf_frame(o, *self);
        }
        let c = self.cards[e];
        if c.in_stack() {
            return ;
        }
        let t = match self.hovered_tile {
            Some(t) => t,
            None => {
                return ;
            },
        };
        let hp = match self.hover_point {
            Some(hp) => hp,
            None => {
                return ;
            },
        };
        let tl = self.tiles[t];
        let (wx, wy) = Tile::grid_to_translation(tl.grid_x, tl.grid_y);
        if !in_slot_footprint(wx, wy, hp.x, hp.y) {
            return ;
        }
        self.try_slotting_card(t, e);
    }
}

/// Card `i` is the held card of `o`.
pub open spec fn is_held(o: Simulation, i: int) -> bool {
    match o.selected_card {
        Option::Some(c) => c as int == i,
        Option::None => false,
    }
}

/// Position of card `i` after the per-card movement pass: a held card
/// follows the pointer, lifted; a slotted card sits on its tile; any other
/// card keeps its place, back on the board plane.
pub open spec fn base_position_ok(o: Simulation, s: Simulation, i: int) -> bool {
    if is_held(o, i) {
        &&& s.cards@[i].z == SELECT_LIFT_Z
        &&& match o.hover_point {
            Option::Some(hp) => s.cards@[i].x == hp.x && s.cards@[i].y == hp.y,
            Option::None => s.cards@[i].x == o.cards@[i].x && s.cards@[i].y == o.cards@[i].y,
        }
    } else {
        match o.cards@[i].slotted_in_tile {
            Option::Some(t) => {
                &&& s.cards@[i].x as int == Tile::grid_axis_to_world(
                    o.tiles@[t as int].grid_x as int,
                )
                &&& s.cards@[i].y as int == Tile::grid_axis_to_world(
                    o.tiles@[t as int].grid_y as int,
                )
                &&& s.cards@[i].z == 0
            },
            Option::None => {
                &&& s.cards@[i].x == o.cards@[i].x
                &&& s.cards@[i].y == o.cards@[i].y
                &&& s.cards@[i].z == 0
            },
        }
    }
}

/// `k` heads a stack whose members the movement pass cascades: it has a
/// registry entry, no parent, and at least one descendant.
pub open spec fn cascade_root(o: Simulation, k: int) -> bool {
    &&& 0 <= k < o.n()
    &&& o.stack_roots.roots@[k] is Some
    &&& o.cards@[k].stack_parent is None
    &&& o.cards@[k].stack_child is Some
}

/// Card `m` sits `dpth` steps below base position `(bx, by, bz)`: same
/// column, cascading down the board and up in depth.
pub open spec fn offset_position_ok(
    s: Simulation,
    m: int,
    bx: i64,
    by: i64,
    bz: i64,
    dpth: int,
) -> bool {
    &&& s.cards@[m].x == bx
    &&& s.cards@[m].y as int == clamp_coord(
        by as int + clamp_coord(STACK_OFFSET_Y as int * dpth),
    )
    &&& s.cards@[m].z as int == clamp_coord(
        bz as int + clamp_coord(STACK_OFFSET_Z as int * dpth),
    )
}

/// Every member of `k`'s stack hangs in the cascade below `k`'s own
/// position.
pub open spec fn cascade_ok(o: Simulation, s: Simulation, k: int) -> bool {
    match o.cards@[k].stack_child {
        Option::Some(j) => forall|d: int|
            0 <= d < o.stack_seq(j as int).len() ==> offset_position_ok(
                s,
                #[trigger] o.stack_seq(j as int)[d],
                s.cards@[k].x,
                s.cards@[k].y,
                s.cards@[k].z,
                d + 1,
            ),
        Option::None => true,
    }
}

/// Card `i` is a non-root member of some cascading stack.
pub open spec fn in_cascade(o: Simulation, i: int) -> bool {
    exists|k: int|
        #[trigger] cascade_root(o, k) && (match o.cards@[k].stack_child {
            Option::Some(j) => o.stack_seq(j as int).contains(i),
            Option::None => false,
        })
}

impl Simulation {
    /// Lay the chain from `entity` out below base position `(bx, by, bz)`,
    /// the member `d` steps along the chain at cascade depth `depth + d`.
    fn position_stack(&mut self, entity: usize, bx: i64, by: i64, bz: i64, depth: usize)
        requires
            old(self).wf(),
            (entity as int) < old(self).n(),
            depth >= 1,
            depth + old(self).stack_seq(entity as int).len() <= usize::MAX,
        ensures
            final(self).wf(),
            final(self).cards@.len() == old(self).cards@.len(),
            forall|i: int|
                0 <= i < old(self).n() ==> same_card_apart_positions(
                    #[trigger] final(self).cards@[i],
                    old(self).cards@[i],
                ),
            forall|d: int|
                0 <= d < old(self).stack_seq(entity as int).len() ==> offset_position_ok(
                    *final(self),
                    #[trigger] old(self).stack_seq(entity as int)[d],
                    bx,
                    by,
                    bz,
                    depth + d,
                ),
            forall|i: int|
                0 <= i < old(self).n() && !old(self).stack_seq(entity as int).contains(i)
                    ==> final(self).cards@[i] == #[trigger] old(self).cards@[i],
            final(self).tiles == old(self).tiles,
            final(self).bars == old(self).bars,
            final(self).stack_roots.roots == old(self).stack_roots.roots,
            final(self).stack_roots.queued == old(self).stack_roots.queued,
            final(self).selected_card == old(self).selected_card,
            final(self).hover_point == old(self).hover_point,
            final(self).hovered_tile == old(self).hovered_tile,
        decreases self.stack_seq(entity as int).len(),
    {
        let ghost o = *old(self);
        let ghost n = o.cards@.len();
        let ghost sseq = o.stack_seq(entity as int);
        proof {
            assert(settles(o.child_links(), entity as int, n));
            lemma_chain_shape(o.child_links(), entity as int, n);
            lemma_chain_no_dup(o.child_links(), entity as int, n);
        }
        let c = self.cards[entity];
        let ny = coord_add(by, coord_mul_count(STACK_OFFSET_Y, depth));
        let nz = coord_add(bz, coord_mul_count(STACK_OFFSET_Z, depth));
        let mut cm = c;
        cm.x = bx;
        cm.y = ny;
        cm.z = nz;
        self.cards[entity] = cm;
        proof {
            lemma_wf_positions_frame(o, *self);
        }
        match c.stack_child {
            Some(child) => {
                let ghost mid = *self;
                proof {
                    assert(o.child_links()[entity as int] == Option::Some(child));
                    lemma_chain_step(o.child_links(), entity as int, child, n);
                    assert(mid.child_links() =~= o.child_links());
                    assert(mid.stack_seq(child as int) == o.stack_seq(child as int));
                    assert(sseq == seq![entity as int] + o.stack_seq(child as int));
                    assert(self.stack_seq(child as int).len() < sseq.len());
                }
                self.position_stack(child, bx, by, bz, depth + 1);
                proof {
                    let s = *self;
                    // the chain below `entity` keeps `entity`'s fresh position
                    assert(!o.stack_seq(child as int).contains(entity as int)) by {
                        if o.stack_seq(child as int).contains(entity as int) {
                            let d = choose|d: int|
                                0 <= d < o.stack_seq(child as int).len() && o.stack_seq(
                                    child as int,
                                )[d] == entity as int;
                            assert(sseq[d + 1] == entity as int);
                            assert(sseq[0] == entity as int);
                        }
                    }
                    assert(s.cards@[entity as int] == mid.cards@[entity as int]);
                    assert forall|d: int|
                        0 <= d < sseq.len() implies offset_position_ok(
                        s,
                        #[trigger] sseq[d],
                        bx,
                        by,
                        bz,
                        depth + d,
                    ) by {
                        if d == 0 {
                            assert(sseq[0] == entity as int);
                        } else {
                            assert(sseq[d] == o.stack_seq(child as int)[d - 1]);
                            assert(offset_position_ok(
                                s,
                                o.stack_seq(child as int)[d - 1],
                                bx,
                                by,
                                bz,
                                depth + 1 + (d - 1),
                            ));
                        }
                    }
                    assert forall|i: int|
                        0 <= i < n && !sseq.contains(i) implies s.cards@[i]
                        == #[trigger] o.cards@[i] by {
                        assert(!o.stack_seq(child as int).contains(i)) by {
                            if o.stack_seq(child as int).contains(i) {
                                let d = choose|d: int|
                                    0 <= d < o.stack_seq(child as int).len() && o.stack_seq(
                                        child as int,
                                    )[d] == i;
                                assert(sseq[d + 1] == i);
                            }
                        }
                        assert(i != entity as int) by {
                            assert(sseq[0] == entity as int);
                        }
                        assert(mid.cards@[i] == o.cards@[i]);
                    }
                }
            },
            None => {
                proof {
                    assert(sseq == seq![entity as int]);
                    assert forall|i: int|
                        0 <= i < n && !sseq.contains(i) implies self.cards@[i]
                        == #[trigger] o.cards@[i] by {
                        assert(sseq[0] == entity as int);
                        assert(i != entity as int);
                    }
                }
            },
        }
    }

    /// The per-tick movement pass: the held card follows the pointer and
    /// lifts, slotted cards snap onto their tiles, everything else returns
    /// to the board plane — and then each registered stack is laid out as a
    /// cascade below its root.
    pub fn move_cards(&mut self)
        requires
            old(self).wf(),
        ensures
            final(self).wf(),
            move_cards_post(*old(self), *final(self)),
    {
        let ghost o = *old(self);
        let n = self.cards.len();
        let mut i: usize = 0;
        while i < n
            invariant
                o.wf(),
                n == o.cards@.len(),
                i <= n,
                self.cards@.len() == n,
                forall|i2: int|
                    0 <= i2 < n ==> same_card_apart_positions(
                        #[trigger] self.cards@[i2],
                        o.cards@[i2],
                    ),
                self.tiles == o.tiles,
                self.bars == o.bars,
                self.stack_roots.roots == o.stack_roots.roots,
                self.stack_roots.queued == o.stack_roots.queued,
                self.selected_card == o.selected_card,
                self.hover_point == o.hover_point,
                self.hovered_tile == o.hovered_tile,
                forall|i2: int| 0 <= i2 < i ==> base_position_ok(o, *self, i2),
                forall|i2: int| i <= i2 < n ==> self.cards@[i2] == #[trigger] o.cards@[i2],
            decreases n - i,
        {
            let ghost prev = *self;
            let c = self.cards[i];
            let mut cm = c;
            let held = match self.selected_card {
                Some(sc) => sc == i,
                None => false,
            };
            if held {
                cm.z = SELECT_LIFT_Z;
                match self.hover_point {
                    Some(hp) => {
                        cm.x = hp.x;
                        cm.y = hp.y;
                    },
                    None => {},
                }
            } else {
                cm.z = 0;
                match c.slotted_in_tile {
                    Some(t) => {
                        proof {
                            assert(o.card_slot_ok(i as int));
                        }
                        let tl = self.tiles[t];
                        let (wx, wy) = Tile::grid_to_translation(tl.grid_x, tl.grid_y);
                        cm.x = wx;
                        cm.y = wy;
                    },
                    None => {},
                }
            }
            self.cards[i] = cm;
            proof {
                assert(base_position_ok(o, *self, i as int));
                assert forall|i2: int| 0 <= i2 < i + 1 implies base_position_ok(
                    o,
                    *self,
                    i2,
                ) by {
                    if i2 < i {
                        assert(base_position_ok(o, prev, i2));
                        assert(self.cards@[i2] == prev.cards@[i2]);
                    }
                }
            }
            i = i + 1;
        }
        proof {
            lemma_wf_positions_frame(o, *self);
        }
        let ghost m1 = *self;
        let mut k: usize = 0;
        while k < n
            invariant
                o.wf(),
                m1.wf(),
                self.wf(),
                n == o.cards@.len(),
                k <= n,
                self.cards@.len() == n,
                m1.cards@.len() == n,
                forall|i2: int|
                    0 <= i2 < n ==> same_card_apart_positions(
                        #[trigger] self.cards@[i2],
                        o.cards@[i2],
                    ),
                forall|i2: int|
                    0 <= i2 < n ==> same_card_apart_positions(
                        #[trigger] m1.cards@[i2],
                        o.cards@[i2],
                    ),
                self.tiles == o.tiles,
                self.bars == o.bars,
                self.stack_roots.roots == o.stack_roots.roots,
                self.stack_roots.queued == o.stack_roots.queued,
                self.selected_card == o.selected_card,
                self.hover_point == o.hover_point,
                self.hovered_tile == o.hovered_tile,
                forall|i2: int| 0 <= i2 < n ==> base_position_ok(o, m1, i2),
                forall|i2: int|
                    0 <= i2 < n && !in_cascade(o, i2) ==> self.cards@[i2] == #[trigger] m1.cards@[
                        i2
                    ],
                forall|i2: int|
                    0 <= i2 < n && o.cards@[i2].stack_parent is None ==> self.cards@[i2]
                        == #[trigger] m1.cards@[i2],
                forall|k2: int| 0 <= k2 < k && cascade_root(o, k2) ==> cascade_ok(o, *self, k2),
            decreases n - k,
        {
            let has_entry = self.stack_roots.roots[k].is_some();
            if has_entry {
                let ck = self.cards[k];
                if ck.stack_parent.is_none() {
                    match ck.stack_child {
                        Some(j) => {
                            let ghost prev = *self;
                            proof {
                                assert(cascade_root(o, k as int));
                                assert(settles(o.child_links(), k as int, n as nat));
                                assert(o.child_links()[k as int] == Option::Some(j));
                                lemma_chain_step(o.child_links(), k as int, j, n as nat);
                                lemma_chain_le_len(o.child_links(), k as int, n as nat);
                                lemma_chain_no_dup(o.child_links(), k as int, n as nat);
                                assert(prev.child_links() =~= o.child_links());
                                assert(prev.stack_seq(j as int) == o.stack_seq(j as int));
                                assert(1 + prev.stack_seq(j as int).len() <= n);
                            }
                            self.position_stack(j, ck.x, ck.y, ck.z, 1);
                            proof {
                                let s = *self;
                                let jseq = o.stack_seq(j as int);
                                // the root is not a member of its own tail
                                assert(!jseq.contains(k as int)) by {
                                    if jseq.contains(k as int) {
                                        let d = choose|d: int|
                                            0 <= d < jseq.len() && jseq[d] == k as int;
                                        assert(o.stack_seq(k as int)[d + 1] == k as int);
                                        assert(o.stack_seq(k as int)[0] == k as int);
                                        lemma_chain_no_dup(o.child_links(), k as int, n as nat);
                                    }
                                }
                                assert(s.cards@[k as int] == prev.cards@[k as int]);
                                // every member written lies in this cascade
                                assert forall|i2: int|
                                    0 <= i2 < n && !in_cascade(o, i2) implies s.cards@[i2]
                                    == #[trigger] m1.cards@[i2] by {
                                    assert(!jseq.contains(i2)) by {
                                        if jseq.contains(i2) {
                                            assert(cascade_root(o, k as int));
                                            assert(in_cascade(o, i2));
                                        }
                                    }
                                    assert(s.cards@[i2] == prev.cards@[i2]);
                                }
                                // members of a cascade all have parents
                                assert forall|i2: int|
                                    0 <= i2 < n && o.cards@[i2].stack_parent is None implies s
                                    .cards@[i2] == #[trigger] m1.cards@[i2] by {
                                    assert(!jseq.contains(i2)) by {
                                        if jseq.contains(i2) {
                                            lemma_chain_shape(o.child_links(), j as int, n as nat);
                                            let d = choose|d: int|
                                                0 <= d < jseq.len() && jseq[d] == i2;
                                            if d == 0 {
                                                assert(mirror_ok(
                                                    o.child_links(),
                                                    o.parent_links(),
                                                    k as int,
                                                ));
                                                assert(points_to(o.parent_links(), j as int, k as int));
                                            } else {
                                                assert(points_to(
                                                    o.child_links(),
                                                    jseq[d - 1],
                                                    jseq[d],
                                                ));
                                                assert(mirror_ok(
                                                    o.child_links(),
                                                    o.parent_links(),
                                                    jseq[d - 1],
                                                ));
                                                assert(points_to(o.parent_links(), i2, jseq[d - 1]));
                                            }
                                        }
                                    }
                                    assert(s.cards@[i2] == prev.cards@[i2]);
                                }
                                // earlier cascades touch disjoint members
                                assert forall|k2: int|
                                    0 <= k2 < k + 1 && cascade_root(o, k2) implies cascade_ok(
                                    o,
                                    s,
                                    k2,
                                ) by {
                                    if k2 == k as int {
                                        assert forall|d: int|
                                            0 <= d < jseq.len() implies offset_position_ok(
                                            s,
                                            #[trigger] jseq[d],
                                            s.cards@[k as int].x,
                                            s.cards@[k as int].y,
                                            s.cards@[k as int].z,
                                            d + 1,
                                        ) by {
                                            assert(offset_position_ok(
                                                s,
                                                jseq[d],
                                                ck.x,
                                                ck.y,
                                                ck.z,
                                                1 + d,
                                            ));
                                        }
                                    } else {
                                        assert(cascade_ok(o, prev, k2));
                                        match o.cards@[k2].stack_child {
                                            Option::Some(j2) => {
                                                let j2seq = o.stack_seq(j2 as int);
                                                assert(crate::chain::link_ok(
                                                    o.child_links(),
                                                    k2,
                                                ));
                                                assert((j2 as int) < n);
                                                assert(settles(
                                                    o.child_links(),
                                                    j2 as int,
                                                    n as nat,
                                                ));
                                                lemma_chain_shape(
                                                    o.child_links(),
                                                    j2 as int,
                                                    n as nat,
                                                );
                                                assert(s.cards@[k2] == prev.cards@[k2]) by {
                                                    assert(!jseq.contains(k2)) by {
                                                        if jseq.contains(k2) {
                                                            assert(o.stack_seq(k as int).contains(
                                                                k2,
                                                            )) by {
                                                                let d = choose|d: int|
                                                                    0 <= d < jseq.len() && jseq[d]
                                                                        == k2;
                                                                assert(o.stack_seq(k as int)[d + 1]
                                                                    == k2);
                                                            }
                                                            lemma_member_back(
                                                                o.child_links(),
                                                                o.parent_links(),
                                                                k as int,
                                                                n as nat,
                                                                k2,
                                                            );
                                                            assert(settles(
                                                                o.child_links(),
                                                                k2,
                                                                n as nat,
                                                            ));
                                                            lemma_member_back(
                                                                o.child_links(),
                                                                o.parent_links(),
                                                                k2,
                                                                n as nat,
                                                                k2,
                                                            );
                                                        }
                                                    }
                                                }
                                                assert forall|d: int|
                                                    0 <= d < j2seq.len() implies offset_position_ok(
                                                    s,
                                                    #[trigger] j2seq[d],
                                                    s.cards@[k2].x,
                                                    s.cards@[k2].y,
                                                    s.cards@[k2].z,
                                                    d + 1,
                                                ) by {
                                                    let m = j2seq[d];
                                                    assert(offset_position_ok(
                                                        prev,
                                                        m,
                                                        prev.cards@[k2].x,
                                                        prev.cards@[k2].y,
                                                        prev.cards@[k2].z,
                                                        d + 1,
                                                    ));
                                                    assert(!jseq.contains(m)) by {
                                                        if jseq.contains(m) {
                                                            assert(o.stack_seq(k as int).contains(
                                                                m,
                                                            )) by {
                                                                let d3 = choose|d3: int|
                                                                    0 <= d3 < jseq.len() && jseq[d3]
                                                                        == m;
                                                                assert(o.stack_seq(k as int)[d3 + 1]
                                                                    == m);
                                                            }
                                                            assert(o.stack_seq(k2).contains(m)) by {
                                                                let d4 = choose|d4: int|
                                                                    0 <= d4 < j2seq.len()
                                                                        && j2seq[d4] == m;
                                                                assert(settles(
                                                                    o.child_links(),
                                                                    k2,
                                                                    n as nat,
                                                                ));
                                                                lemma_chain_step(
                                                                    o.child_links(),
                                                                    k2,
                                                                    j2,
                                                                    n as nat,
                                                                );
                                                                assert(o.stack_seq(k2)[d4 + 1]
                                                                    == m);
                                                            }
                                                            lemma_member_back(
                                                                o.child_links(),
                                                                o.parent_links(),
                                                                k as int,
                                                                n as nat,
                                                                m,
                                                            );
                                                            lemma_member_back(
                                                                o.child_links(),
                                                                o.parent_links(),
                                                                k2,
                                                                n as nat,
                                                                m,
                                                            );
                                                        }
                                                    }
                                                    assert(s.cards@[m] == prev.cards@[m]);
                                                }
                                            },
                                            Option::None => {},
                                        }
                                    }
                                }
                            }
                        },
                        None => {},
                    }
                }
            }
            k = k + 1;
        }
        proof {
            let s = *self;
            assert forall|i2: int|
                0 <= i2 < n && !in_cascade(o, i2) implies base_position_ok(o, s, i2) by {
                assert(self.cards@[i2] == m1.cards@[i2]);
                assert(base_position_ok(o, m1, i2));
            }
        }
    }

    /// One simulation tick, in the fixed intra-tick order: contact-driven
    /// stacking, pointer handling, movement, stack reclassification with
    /// timer advancement, then tile hover and tile production. `tick_post`
    /// is exactly the chain of the eight stage postconditions.
    pub fn tick(&mut self, contacts: &Vec<(usize, usize)>, pointer: PointerInput, delta_ms: u64)
        requires
            old(self).wf(),
        ensures
            final(self).wf(),
            tick_post(*old(self), *final(self), contacts@, pointer, delta_ms),
            final(self).tiles@.len() == old(self).tiles@.len(),
            final(self).cards@.len() >= old(self).cards@.len(),
    {
        self.collide_cards(contacts);
        let ghost g1 = *self;
        self.set_hover(pointer.hover);
        let ghost g2 = *self;
        if pointer.pressed {
            self.pointer_down(pointer.clicked);
        }
        let ghost g3 = *self;
        if pointer.released {
            self.pointer_up();
        }
        let ghost g4 = *self;
        self.move_cards();
        let ghost g5 = *self;
        self.evaluate_stacks(delta_ms);
        let ghost g6 = *self;
        self.hover_tile();
        let ghost g7 = *self;
        self.evaluate_tiles(delta_ms);
        proof {
            let o = *old(self);
            assert(contacts_processed(o, g1, contacts@));
            assert(hover_set_post(g1, g2, pointer.hover));
            assert(pressed_step(g2, g3, pointer));
            assert(released_step(g3, g4, pointer));
            assert(move_cards_post(g4, g5));
            assert(crate::evaluate::evaluate_post(g5, g6, delta_ms));
            assert(crate::tile::hover_tile_post(g6, g7));
            assert(crate::tile::evaluate_tiles_post(g7, *self, delta_ms));
            assert(tick_post(o, *self, contacts@, pointer, delta_ms));
        }
    }
}

/// The pointer-down stage of a tick: the pickup handler when the button
/// went down this tick, a no-op otherwise.
pub open spec fn pressed_step(o: Simulation, s: Simulation, pointer: PointerInput) -> bool {
    if pointer.pressed {
        pointer_down_post(o, s, pointer.clicked)
    } else {
        s == o
    }
}

/// The pointer-up stage of a tick: the release handler when the button came
/// up this tick, a no-op otherwise.
pub open spec fn released_step(o: Simulation, s: Simulation, pointer: PointerInput) -> bool {
    if pointer.released {
        pointer_up_post(o, s)
    } else {
        s == o
    }
}

/// Everything one tick leaves behind: a chain of intermediate states, one
/// per pipeline stage, each related to the next by that stage's
/// postcondition — contact stacking, hover update, pointer down, pointer
/// up, movement, the evaluator, tile hover, tile production.
pub open spec fn tick_post(
    o: Simulation,
    s: Simulation,
    contacts: Seq<(usize, usize)>,
    pointer: PointerInput,
    delta_ms: u64,
) -> bool {
    exists|s1: Simulation|
        #[trigger] contacts_processed(o, s1, contacts) && exists|s2: Simulation|
            #[trigger] hover_set_post(s1, s2, pointer.hover) && exists|s3: Simulation|
                #[trigger] pressed_step(s2, s3, pointer) && exists|s4: Simulation|
                    #[trigger] released_step(s3, s4, pointer) && exists|s5: Simulation|
                        #[trigger] move_cards_post(s4, s5) && exists|s6: Simulation|
                            #[trigger] crate::evaluate::evaluate_post(s5, s6, delta_ms)
                                && exists|s7: Simulation|
                                #[trigger] crate::tile::hover_tile_post(s6, s7)
                                    && crate::tile::evaluate_tiles_post(s7, s, delta_ms)
}

} // verus!
