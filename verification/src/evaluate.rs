//! The stack evaluator: queue-driven reclassification and breeding timers.

use vstd::prelude::*;

use crate::card::{Card, CardType};
use crate::chain::{chain, lemma_chain_le_len, lemma_chain_shape, lemma_chain_step, settles};
use crate::coord::{clamp_coord, coord_add};
use crate::progress_bar::{BarEntity, ProgressBar};
use crate::sim::{
    entry_is_breed, lemma_wf_bar_value, lemma_wf_bars_rewire, spawned_card, Simulation, StackType,
    BREED_DURATION_MS, CARD_SPAWN_OFFSET,
};
use crate::tile::appended_keys_blank;

verus! {

/// How many of the members `s` (indices into `cards`) are villagers.
pub open spec fn villagers_in(cards: Seq<Card>, s: Seq<int>) -> nat
    decreases s.len(),
{
    if s.len() == 0 {
        0
    } else {
        villagers_in(cards, s.drop_last()) + (if cards[s.last()].info.card_type
            == CardType::Villager {
            1nat
        } else {
            0nat
        })
    }
}

/// The classification rule in counted form: a two-member stack of two
/// villagers is exactly a stack whose census reads two cards, two villagers.
pub proof fn lemma_breed_condition_count(o: Simulation, r: int)
    ensures
        o.breed_condition(r) <==> (o.stack_seq(r).len() == 2 && villagers_in(
            o.cards@,
            o.stack_seq(r),
        ) == 2),
{
    let s = o.stack_seq(r);
    if s.len() == 2 {
        let s1 = s.drop_last();
        assert(s1.len() == 1);
        assert(s1.drop_last().len() == 0);
        assert(s1.last() == s[0]);
        assert(s.last() == s[1]);
        assert(villagers_in(o.cards@, s1.drop_last()) == 0);
        assert(villagers_in(o.cards@, s) == villagers_in(o.cards@, s1) + (
        if o.cards@[s[1]].info.card_type == CardType::Villager {
            1nat
        } else {
            0nat
        }));
        assert(villagers_in(o.cards@, s1) == (
        if o.cards@[s[0]].info.card_type == CardType::Villager {
            1nat
        } else {
            0nat
        }));
        if o.breed_condition(r) {
            assert(o.cards@[s[0]].info.card_type == CardType::Villager);
            assert(o.cards@[s[1]].info.card_type == CardType::Villager);
        }
        if villagers_in(o.cards@, s) == 2 {
            assert forall|k: int|
                0 <= k < s.len() implies (#[trigger] o.cards@[s[k]]).info.card_type
                == CardType::Villager by {
                assert(k == 0 || k == 1);
                if o.cards@[s[0]].info.card_type != CardType::Villager || o.cards@[
                    s[1]
                ].info.card_type != CardType::Villager {
                    assert(villagers_in(o.cards@, s) < 2);
                }
            }
        }
    }
}

/// Predicates about stacks read nothing but the card arena, so they carry
/// over between states whose cards agree.
pub proof fn lemma_classif_frame(o: Simulation, s: Simulation, r: int)
    requires
        s.cards@ == o.cards@,
    ensures
        s.stack_seq(r) == o.stack_seq(r),
        s.root_seq(r) == o.root_seq(r),
        s.stack_root_of(r) == o.stack_root_of(r),
        s.stack_top_of(r) == o.stack_top_of(r),
        s.proper_root(r) == o.proper_root(r),
        s.breed_condition(r) == o.breed_condition(r),
{
    assert(s.child_links() =~= o.child_links());
    assert(s.parent_links() =~= o.parent_links());
    assert(s.breed_condition(r) == o.breed_condition(r)) by {
        if s.breed_condition(r) {
            assert forall|k: int|
                0 <= k < o.stack_seq(r).len() implies (#[trigger] o.cards@[o.stack_seq(
                r,
            )[k]]).info.card_type == CardType::Villager by {
                assert(s.cards@[s.stack_seq(r)[k]].info.card_type == CardType::Villager);
            }
        }
        if o.breed_condition(r) {
            assert forall|k: int|
                0 <= k < s.stack_seq(r).len() implies (#[trigger] s.cards@[s.stack_seq(
                r,
            )[k]]).info.card_type == CardType::Villager by {
                assert(o.cards@[o.stack_seq(r)[k]].info.card_type == CardType::Villager);
            }
        }
    }
}

impl Simulation {
    /// Walk the stack from `r` and count its members and its villagers: the
    /// whole classification rule table reads only this census.
    fn count_stack(&self, r: usize) -> (res: (usize, usize))
        requires
            self.wf_core(),
            (r as int) < self.n(),
        ensures
            res.0 as int == self.stack_seq(r as int).len(),
            res.1 as nat == villagers_in(self.cards@, self.stack_seq(r as int)),
    {
        let ghost links = self.child_links();
        let ghost n = self.cards@.len();
        let ghost sseq = self.stack_seq(r as int);
        proof {
            assert(settles(links, r as int, n));
            lemma_chain_le_len(links, r as int, n);
        }
        let count_cap = self.cards.len();
        let mut cur = r;
        let mut total: usize = 0;
        let mut vill: usize = 0;
        loop
            invariant
                self.wf_core(),
                n == self.cards@.len(),
                count_cap as int == n,
                sseq == self.stack_seq(r as int),
                sseq.len() <= n,
                links == self.child_links(),
                (cur as int) < n,
                settles(links, cur as int, n),
                (total as int) < sseq.len(),
                chain(links, cur as int, n) == sseq.skip(total as int),
                vill as nat == villagers_in(self.cards@, sseq.take(total as int)),
                vill <= total,
            decreases chain(links, cur as int, n).len(),
        {
            let card = self.cards[cur];
            proof {
                assert(chain(links, cur as int, n)[0] == cur as int);
                assert(sseq[total as int] == cur as int);
                assert(sseq.take(total as int + 1).drop_last() =~= sseq.take(total as int));
                assert(sseq.take(total as int + 1).last() == sseq[total as int]);
            }
            total = total + 1;
            if card.card_type() == CardType::Villager {
                vill = vill + 1;
            }
            match card.stack_child {
                Some(j) => {
                    proof {
                        assert(links[cur as int] == Option::Some(j));
                        lemma_chain_step(links, cur as int, j, n);
                        assert((seq![cur as int] + chain(links, j as int, n)).skip(1)
                            =~= chain(links, j as int, n));
                        assert(sseq.skip(total as int - 1).skip(1) =~= sseq.skip(total as int));
                        assert(chain(links, j as int, n) =~= sseq.skip(total as int));
                    }
                    cur = j;
                },
                None => {
                    proof {
                        assert(links[cur as int] is None);
                        assert(chain(links, cur as int, n) == seq![cur as int]);
                        assert(sseq.skip(total as int - 1).len() == 1);
                        assert(total as int == sseq.len());
                        assert(sseq.take(total as int) =~= sseq);
                    }
                    return (total, vill);
                },
            }
        }
    }

    /// Resolve one queued card: drop its registry entry if it is no longer a
    /// root, then reclassify its current root from the stack census,
    /// cancelling (and so despawning the timer of) whatever classification
    /// either key held before.
    fn recompute_one(&mut self, e: usize)
        requires
            old(self).wf_core(),
            (e as int) < old(self).n(),
        ensures
            final(self).wf_core(),
            final(self).cards == old(self).cards,
            final(self).tiles == old(self).tiles,
            final(self).selected_card == old(self).selected_card,
            final(self).hover_point == old(self).hover_point,
            final(self).hovered_tile == old(self).hovered_tile,
            final(self).stack_roots.queued == old(self).stack_roots.queued,
            final(self).stack_roots.roots@.len() == old(self).stack_roots.roots@.len(),
            ({
                let o = *old(self);
                let s = *final(self);
                let r = o.stack_root_of(e as int);
                &&& (r != e as int ==> o.cards@[e as int].stack_parent is Some)
                &&& (r != e as int ==> s.stack_roots.roots@[e as int] is None)
                &&& (o.proper_root(r) && o.breed_condition(r) ==> (match s.stack_roots.roots@[
                    r] {
                    Option::Some(StackType::Breed { progress_bar }) => progress_bar as int
                        == o.bars@.len() && s.bars@[progress_bar as int] == BarEntity {
                        bar: ProgressBar { current_ms: 0, total_ms: BREED_DURATION_MS },
                        alive: true,
                    },
                    _ => false,
                }) && s.bars@.len() == o.bars@.len() + 1)
                &&& (o.proper_root(r) && !o.breed_condition(r) ==> s.stack_roots.roots@[r]
                    == Option::Some(StackType::Nothing) && s.bars@.len() == o.bars@.len())
                &&& (!o.proper_root(r) ==> s.stack_roots.roots@[r] is None && s.bars@.len()
                    == o.bars@.len())
                &&& s.stack_roots.roots@[r] != Option::Some(StackType::Pending)
                &&& forall|k: int|
                    0 <= k < o.n() && k != e as int && k != r ==> s.stack_roots.roots@[k]
                        == #[trigger] o.stack_roots.roots@[k]
                &&& forall|b: int|
                    0 <= b < o.bars@.len() && (#[trigger] s.bars@[b]).alive ==> s.bars@[b]
                        == o.bars@[b] && o.bars@[b].alive
                &&& forall|b: int|
                    0 <= b < o.bars@.len() && !o.root_owns_bar(e as int, b) && !o.root_owns_bar(
                        r,
                        b,
                    ) ==> s.bars@[b] == #[trigger] o.bars@[b]
                &&& (r != e as int ==> match o.stack_roots.roots@[e as int] {
                    Option::Some(StackType::Breed { progress_bar }) => !s.bars@[
                        progress_bar as int
                    ].alive,
                    _ => true,
                })
                &&& match o.stack_roots.roots@[r] {
                    Option::Some(StackType::Breed { progress_bar }) => !s.bars@[
                        progress_bar as int
                    ].alive,
                    _ => true,
                }
            }),
    {
        let ghost o = *old(self);
        let ghost n = o.cards@.len();
        let r = self.find_stack_root(e);
        let (total, vill) = self.count_stack(r);
        let has_child = self.cards[r].stack_child.is_some();
        proof {
            lemma_breed_condition_count(o, r as int);
            if r != e && o.cards@[e as int].stack_parent is None {
                assert(o.parent_links()[e as int] is None);
                assert(chain(o.parent_links(), e as int, n) == seq![e as int]);
            }
            assert(o.proper_root(r as int) == has_child);
        }
        let ghost breed = o.proper_root(r as int) && o.breed_condition(r as int);
        // a queued card that is no longer a root loses its stale entry
        let mut stale1: Option<StackType> = None;
        if r != e {
            stale1 = self.stack_roots.roots[e];
            self.stack_roots.roots[e] = None;
        }
        match stale1 {
            Some(StackType::Breed { progress_bar }) => {
                proof {
                    assert(o.root_owns_bar(e as int, progress_bar as int));
                    assert(o.bar_live(progress_bar as int));
                }
                self.despawn_bar(progress_bar);
            },
            _ => {},
        }
        let ghost g1 = *self;
        // reclassify the root, cancelling what it held
        let stale2 = self.stack_roots.roots[r];
        proof {
            assert(stale2 == o.stack_roots.roots@[r as int]);
        }
        if !has_child {
            self.stack_roots.roots[r] = None;
        } else if total == 2 && vill == 2 {
            let pb = self.bars.len();
            self.bars.push(
                BarEntity { bar: ProgressBar::new(BREED_DURATION_MS), alive: true },
            );
            self.stack_roots.roots[r] = Some(StackType::Breed { progress_bar: pb });
        } else {
            self.stack_roots.roots[r] = Some(StackType::Nothing);
        }
        match stale2 {
            Some(StackType::Breed { progress_bar }) => {
                proof {
                    assert(o.root_owns_bar(r as int, progress_bar as int));
                    assert(o.bar_live(progress_bar as int));
                    match stale1 {
                        Option::Some(StackType::Breed { progress_bar: pb1 }) => {
                            assert(o.root_owns_bar(e as int, pb1 as int));
                            assert(pb1 != progress_bar);
                        },
                        _ => {},
                    }
                    assert(self.bars@[progress_bar as int].alive);
                }
                self.despawn_bar(progress_bar);
            },
            _ => {},
        }
        proof {
            let s = *self;
            assert(s.child_links() =~= o.child_links());
            assert(s.parent_links() =~= o.parent_links());
            assert forall|i: int| 0 <= i < s.n() implies #[trigger] s.card_slot_ok(i) by {
                assert(o.card_slot_ok(i));
            }
            assert forall|t: int| 0 <= t < s.tiles@.len() implies #[trigger] s.tile_slot_ok(
                t,
            ) by {
                assert(o.tile_slot_ok(t));
            }
            assert forall|i: int|
                0 <= i < s.n() implies (#[trigger] s.cards@[i]).info.stats.wf() by {
                assert(o.cards@[i].info.stats.wf());
            }
            assert forall|t1: int, t2: int|
                0 <= t1 < s.tiles@.len() && 0 <= t2 < s.tiles@.len() && #[trigger] s.tile_grid(t1)
                    == #[trigger] s.tile_grid(t2) implies t1 == t2 by {
                assert(o.tile_grid(t1) == s.tile_grid(t1));
                assert(o.tile_grid(t2) == s.tile_grid(t2));
            }
            // timer ownership across the rewrite of keys `e` and `r`: the
            // two cancelled timers were owned by those keys alone; every
            // other owner keeps its live timer; the fresh countdown, if
            // any, belongs to `r`
            let fresh = o.bars@.len() as int;
            assert forall|k: int, b: int| #[trigger] s.root_owns_bar(k, b) implies (
            o.root_owns_bar(k, b) || b >= fresh) && s.bar_live(b) by {
                if k == r as int {
                    if breed {
                        assert(b == fresh);
                    }
                } else {
                    assert(o.root_owns_bar(k, b));
                    assert(o.bar_live(b));
                    match stale1 {
                        Option::Some(StackType::Breed { progress_bar: pb1 }) => {
                            assert(o.root_owns_bar(e as int, pb1 as int));
                            assert(b != pb1 as int);
                        },
                        _ => {},
                    }
                    match stale2 {
                        Option::Some(StackType::Breed { progress_bar: pb2 }) => {
                            assert(o.root_owns_bar(r as int, pb2 as int));
                            assert(b != pb2 as int);
                        },
                        _ => {},
                    }
                }
            }
            assert forall|t: int, b: int| #[trigger] s.tile_owns_bar(t, b) implies (
            o.tile_owns_bar(t, b) || b >= fresh) && s.bar_live(b) by {
                assert(o.tile_owns_bar(t, b));
                assert(o.bar_live(b));
                match stale1 {
                    Option::Some(StackType::Breed { progress_bar: pb1 }) => {
                        assert(o.root_owns_bar(e as int, pb1 as int));
                        assert(!(o.root_owns_bar(e as int, pb1 as int) && o.tile_owns_bar(
                            t,
                            pb1 as int,
                        )));
                        assert(b != pb1 as int);
                    },
                    _ => {},
                }
                match stale2 {
                    Option::Some(StackType::Breed { progress_bar: pb2 }) => {
                        assert(o.root_owns_bar(r as int, pb2 as int));
                        assert(!(o.root_owns_bar(r as int, pb2 as int) && o.tile_owns_bar(
                            t,
                            pb2 as int,
                        )));
                        assert(b != pb2 as int);
                    },
                    _ => {},
                }
            }
            assert forall|k1: int, k2: int, b: int|
                b >= fresh && #[trigger] s.root_owns_bar(k1, b) && #[trigger] s.root_owns_bar(
                k2,
                b,
            ) implies k1 == k2 by {
                if k1 != r as int {
                    assert(o.root_owns_bar(k1, b));
                    assert(o.bar_live(b));
                }
                if k2 != r as int {
                    assert(o.root_owns_bar(k2, b));
                    assert(o.bar_live(b));
                }
            }
            assert forall|t1: int, t2: int, b: int|
                b >= fresh && #[trigger] s.tile_owns_bar(t1, b) && #[trigger] s.tile_owns_bar(
                t2,
                b,
            ) implies t1 == t2 by {
                assert(o.tile_owns_bar(t1, b));
                assert(o.bar_live(b));
            }
            assert forall|k: int, t: int, b: int|
                b >= fresh implies !(#[trigger] s.root_owns_bar(k, b)
                && #[trigger] s.tile_owns_bar(t, b)) by {
                if s.tile_owns_bar(t, b) {
                    assert(o.tile_owns_bar(t, b));
                    assert(o.bar_live(b));
                }
            }
            assert forall|k: int, b: int|
                #[trigger] o.root_owns_bar(k, b) && s.bar_live(b) && b < fresh implies s
                .root_owns_bar(k, b) by {
                assert(k != e as int || r == e) by {
                    if k == e as int && r != e {
                        match o.stack_roots.roots@[e as int] {
                            Option::Some(StackType::Breed { progress_bar: pb1 }) => {
                                assert(b == pb1 as int);
                                assert(!s.bars@[b].alive);
                            },
                            _ => {},
                        }
                    }
                }
                assert(k != r as int) by {
                    if k == r as int {
                        match o.stack_roots.roots@[r as int] {
                            Option::Some(StackType::Breed { progress_bar: pb2 }) => {
                                assert(b == pb2 as int);
                                assert(!s.bars@[b].alive);
                            },
                            _ => {},
                        }
                    }
                }
            }
            assert forall|t: int, b: int|
                #[trigger] o.tile_owns_bar(t, b) && s.bar_live(b) && b < fresh implies s
                .tile_owns_bar(t, b) by {}
            assert forall|b: int|
                fresh <= b < s.bars@.len() && (#[trigger] s.bars@[b]).alive implies s.bar_owned(
                b,
            ) by {
                assert(b == fresh && breed);
                assert(s.root_owns_bar(r as int, b));
            }
            assert forall|b: int|
                0 <= b < s.bars@.len() implies (#[trigger] s.bars@[b]).bar.wf() by {
                if b < o.bars@.len() {
                    assert(o.bars@[b].bar.wf());
                }
            }
            lemma_wf_bars_rewire(o, s);
        }
    }

    /// Phase A of the evaluator: drain the recomputation queue.    /// Phase A of the evaluator: drain the recomputation queue. Each queued
    /// card leads to its current root, stale entries are dropped, roots are
    /// reclassified from the stack census, and every cancelled `Breed`
    /// classification despawns its timer. Afterwards the queue is empty and
    /// the registry holds an entry exactly at the head of each non-trivial
    /// stack — in particular, every key has no parent.
    pub fn evaluate_phase_a(&mut self)
        requires
            old(self).wf(),
        ensures
            final(self).wf(),
            phase_a_post(*old(self), *final(self)),
    {
        let ghost o = *old(self);
        proof {
            assert forall|k: int|
                0 <= k < o.n() && !o.stack_roots.queued@[k] implies ((
            #[trigger] o.stack_roots.roots@[k]) is Some <==> o.proper_root(k))
                && o.stack_roots.roots@[k] != Option::Some(StackType::Pending) by {
                assert(o.registry_ok(k));
            }
        }
        let n = self.cards.len();
        let mut e: usize = 0;
        while e < n
            invariant
                o.wf(),
                self.wf_core(),
                n == o.cards@.len(),
                e <= n,
                self.cards == o.cards,
                self.tiles == o.tiles,
                self.selected_card == o.selected_card,
                self.hover_point == o.hover_point,
                self.hovered_tile == o.hovered_tile,
                self.bars@.len() >= o.bars@.len(),
                forall|k: int|
                    0 <= k < n ==> #[trigger] self.stack_roots.queued@[k] == (
                    o.stack_roots.queued@[k] && k >= e),
                forall|k: int|
                    0 <= k < n && !(o.stack_roots.queued@[k] && k >= e) ==> ((
                    #[trigger] self.stack_roots.roots@[k]) is Some <==> o.proper_root(k))
                        && self.stack_roots.roots@[k] != Option::Some(StackType::Pending),
                forall|k: int|
                    0 <= k < n && #[trigger] o.stack_roots.queued@[k] && k < e ==> classified(
                        o,
                        *self,
                        o.stack_root_of(k),
                    ),
                forall|k: int|
                    0 <= k < n && !touched_upto(o, k, e as int) ==> self.stack_roots.roots@[k]
                        == #[trigger] o.stack_roots.roots@[k],
                forall|b: int|
                    0 <= b < o.bars@.len() && (#[trigger] self.bars@[b]).alive ==> self.bars@[b]
                        == o.bars@[b] && o.bars@[b].alive,
                forall|k: int|
                    0 <= k < n && touched_upto(o, k, e as int) ==> (match (
                    #[trigger] o.stack_roots.roots@[k]) {
                        Option::Some(StackType::Breed { progress_bar }) => !self.bars@[
                            progress_bar as int
                        ].alive,
                        _ => true,
                    }),
                (forall|k: int| 0 <= k < n ==> !(#[trigger] o.stack_roots.queued@[k])) ==> *self
                    == o,
            decreases n - e,
        {
            if self.stack_roots.queued[e] {
                let ghost prev = *self;
                self.stack_roots.queued[e] = false;
                proof {
                    crate::sim::lemma_wf_core_frame(prev, *self);
                }
                let ghost prev2 = *self;
                self.recompute_one(e);
                proof {
                    let s = *self;
                    lemma_classif_frame(o, prev2, e as int);
                    let r = o.stack_root_of(e as int);
                    lemma_classif_frame(o, prev2, r);
                    assert(o.cards@ == prev2.cards@);
                    assert(prev2.stack_root_of(e as int) == r);
                    assert(prev2.stack_roots.roots@ == prev.stack_roots.roots@);
                    assert(prev2.bars@ == prev.bars@);
                    // queue shape
                    assert forall|k: int|
                        0 <= k < n implies #[trigger] s.stack_roots.queued@[k] == (
                    o.stack_roots.queued@[k] && k >= e + 1) by {
                        assert(s.stack_roots.queued@[k] == prev2.stack_roots.queued@[k]);
                    }
                    // registry iff for settled keys
                    assert forall|k: int|
                        0 <= k < n && !(o.stack_roots.queued@[k] && k >= e + 1) implies ((
                    #[trigger] s.stack_roots.roots@[k]) is Some <==> o.proper_root(k))
                        && s.stack_roots.roots@[k] != Option::Some(StackType::Pending) by {
                        if k == r {
                            assert(o.proper_root(r) == prev2.proper_root(r));
                        } else if k == e as int {
                            if r != e as int {
                                assert(s.stack_roots.roots@[k] is None);
                                assert(prev2.cards@[e as int].stack_parent is Some);
                                assert(!o.proper_root(k));
                            }
                        } else {
                            assert(s.stack_roots.roots@[k] == prev2.stack_roots.roots@[k]);
                        }
                    }
                    // classification facts
                    assert forall|k: int|
                        0 <= k < n && #[trigger] o.stack_roots.queued@[k] && k < e
                            + 1 implies classified(o, s, o.stack_root_of(k)) by {
                        let rk = o.stack_root_of(k);
                        if k < e {
                            assert(classified(o, prev, rk));
                            assert(classified(o, prev2, rk));
                            if rk != e as int && rk != r {
                                assert(settles(o.parent_links(), k, o.cards@.len()));
                                lemma_chain_shape(o.parent_links(), k, o.cards@.len());
                                assert(0 <= rk < n);
                                assert(s.stack_roots.roots@[rk] == prev2.stack_roots.roots@[rk]);
                                // and a breeding root's fresh countdown was
                                // owned by `rk` alone, so this step kept it
                                match prev2.stack_roots.roots@[rk] {
                                    Option::Some(StackType::Breed { progress_bar }) => {
                                        let pb = progress_bar as int;
                                        assert(prev2.root_owns_bar(rk, pb));
                                        assert(prev2.bar_live(pb));
                                        assert(!prev2.root_owns_bar(e as int, pb)) by {
                                            if prev2.root_owns_bar(e as int, pb) {
                                                assert(rk == e as int);
                                            }
                                        }
                                        assert(!prev2.root_owns_bar(r, pb)) by {
                                            if prev2.root_owns_bar(r, pb) {
                                                assert(rk == r);
                                            }
                                        }
                                        assert(s.bars@[pb] == prev2.bars@[pb]);
                                    },
                                    _ => {},
                                }
                            } else if rk == e as int && r != e as int {
                                // a root key has no parent, but `e` has one
                                lemma_classif_frame(o, prev2, k);
                                assert(prev2.cards@[e as int].stack_parent is Some);
                                assert(o.cards@[rk].stack_parent is Some);
                                lemma_chain_shape(o.parent_links(), k, o.cards@.len());
                                assert(o.parent_links()[rk] is None);
                            } else {
                                assert(rk == r);
                                assert(prev2.proper_root(r) == o.proper_root(r));
                                assert(prev2.breed_condition(r) == o.breed_condition(r));
                            }
                        } else {
                            assert(k == e as int);
                            assert(prev2.proper_root(r) == o.proper_root(r));
                            assert(prev2.breed_condition(r) == o.breed_condition(r));
                        }
                    }
                    // untouched keys
                    assert forall|k: int|
                        0 <= k < n && !touched_upto(o, k, e as int + 1) implies self
                        .stack_roots.roots@[k] == #[trigger] o.stack_roots.roots@[k] by {
                        assert(!touched_upto(o, k, e as int));
                        assert(k != e as int);
                        assert(k != r) by {
                            if k == r {
                                assert(o.stack_roots.queued@[e as int]);
                                assert(o.stack_root_of(e as int) == r);
                                assert(touched_upto(o, k, e as int + 1));
                            }
                        }
                        assert(s.stack_roots.roots@[k] == prev2.stack_roots.roots@[k]);
                    }
                    // cancelled breeding timers are dead
                    assert forall|k: int|
                        0 <= k < n && touched_upto(o, k, e as int + 1) implies (match (
                    #[trigger] o.stack_roots.roots@[k]) {
                        Option::Some(StackType::Breed { progress_bar }) => !s.bars@[
                            progress_bar as int
                        ].alive,
                        _ => true,
                    }) by {
                        match o.stack_roots.roots@[k] {
                            Option::Some(StackType::Breed { progress_bar }) => {
                                let pb = progress_bar as int;
                                assert(o.root_owns_bar(k, pb));
                                assert(o.bar_live(pb));
                                if touched_upto(o, k, e as int) {
                                    assert(!prev2.bars@[pb].alive);
                                    assert(!s.bars@[pb].alive) by {
                                        if s.bars@[pb].alive {
                                            assert(s.bars@[pb] == prev2.bars@[pb]
                                                && prev2.bars@[pb].alive);
                                        }
                                    }
                                } else if k == e as int && r != e as int {
                                    assert(prev2.stack_roots.roots@[e as int]
                                        == o.stack_roots.roots@[e as int]);
                                    assert(!s.bars@[pb].alive);
                                } else {
                                    assert(k == r);
                                    assert(prev2.stack_roots.roots@[r]
                                        == o.stack_roots.roots@[r]);
                                    assert(!s.bars@[pb].alive);
                                }
                            },
                            _ => {},
                        }
                    }
                }
            }
            e = e + 1;
        }
        proof {
            let s = *self;
            assert forall|k: int|
                0 <= k < s.n() implies ((#[trigger] s.stack_roots.roots@[k]) is Some <==> s
                .proper_root(k)) by {
                assert(s.proper_root(k) == o.proper_root(k));
            }
            assert forall|k: int| 0 <= k < s.n() implies #[trigger] s.registry_ok(k) by {
                assert(!s.stack_roots.queued@[k]);
            }
            assert(phase_a_post(o, s));
        }
    }

    /// Phase B of the evaluator: advance every breeding timer by the
    /// elapsed time. A countdown that completes despawns its timer, spawns
    /// one villager beside the root, resets the entry to `Pending` and
    /// requeues the root, so the next drain reclassifies it — and starts a
    /// fresh countdown if the pair still qualifies.
    pub fn evaluate_phase_b(&mut self, delta_ms: u64)
        requires
            old(self).wf(),
        ensures
            final(self).wf(),
            phase_b_post(*old(self), *final(self), delta_ms),
    {
        let ghost o = *old(self);
        let mut spawned: Vec<(i64, i64)> = Vec::new();
        let n = self.cards.len();
        let mut k: usize = 0;
        while k < n
            invariant
                self.wf(),
                o.wf(),
                n == o.cards@.len(),
                k <= n,
                self.cards == o.cards,
                self.tiles == o.tiles,
                self.selected_card == o.selected_card,
                self.hover_point == o.hover_point,
                self.hovered_tile == o.hovered_tile,
                self.bars@.len() == o.bars@.len(),
                self.stack_roots.roots@.len() == n,
                self.stack_roots.queued@.len() == n,
                breed_entries_advanced_upto(o, *self, delta_ms, k as int),
                entries_untouched_from(o, *self, k as int),
                forall|b: int|
                    0 <= b < o.bars@.len() && !(exists|k2: int|
                        0 <= k2 < k && o.root_owns_bar(k2, b)) ==> self.bars@[b]
                        == #[trigger] o.bars@[b],
                spawned@.len() == breed_spawns(o, delta_ms, k as int).len(),
                forall|d: int|
                    0 <= d < spawned@.len() ==> spawned_card(
                        CardType::Villager,
                        (#[trigger] spawned@[d]).0,
                        spawned@[d].1,
                    ) == breed_spawns(o, delta_ms, k as int)[d],
            decreases n - k,
        {
            let ghost spawns_before = breed_spawns(o, delta_ms, k as int);
            let entry = self.stack_roots.roots[k];
            match entry {
                Some(StackType::Breed { progress_bar }) => {
                    let pb = progress_bar;
                    proof {
                        assert(self.root_owns_bar(k as int, pb as int));
                        assert(self.bar_live(pb as int));
                        assert(self.bars@[pb as int] == o.bars@[pb as int]) by {
                            if exists|k2: int| 0 <= k2 < k && o.root_owns_bar(k2, pb as int) {
                                let k2 = choose|k2: int|
                                    0 <= k2 < k && o.root_owns_bar(k2, pb as int);
                                assert(o.root_owns_bar(k as int, pb as int));
                            }
                        }
                    }
                    let ghost prev = *self;
                    let mut bar = self.bars[pb].bar;
                    bar.add(delta_ms);
                    let fin = bar.finished();
                    if fin {
                        let c = self.cards[k];
                        spawned.push((coord_add(c.x, CARD_SPAWN_OFFSET), c.y));
                        self.bars[pb] = BarEntity { bar, alive: false };
                        self.stack_roots.roots[k] = Some(StackType::Pending);
                        self.stack_roots.queued[k] = true;
                        proof {
                            let s = *self;
                            assert(fin == finished_breed(o, delta_ms, k as int));
                            assert(s.child_links() =~= prev.child_links());
                            assert(s.parent_links() =~= prev.parent_links());
                            assert forall|i: int|
                                0 <= i < s.n() implies #[trigger] s.card_slot_ok(i) by {
                                assert(prev.card_slot_ok(i));
                            }
                            assert forall|t: int|
                                0 <= t < s.tiles@.len() implies #[trigger] s.tile_slot_ok(t) by {
                                assert(prev.tile_slot_ok(t));
                            }
                            assert forall|k2: int|
                                0 <= k2 < s.n() implies #[trigger] s.registry_ok(k2) by {
                                assert(prev.registry_ok(k2));
                            }
                            // the finished timer was owned by this root
                            // alone: every other owner keeps its live timer
                            assert(prev.root_owns_bar(k as int, pb as int));
                            assert forall|k2: int, b: int|
                                #[trigger] s.root_owns_bar(k2, b) implies (prev.root_owns_bar(
                                k2,
                                b,
                            ) || b >= prev.bars@.len()) && s.bar_live(b) by {
                                assert(k2 != k as int);
                                assert(prev.root_owns_bar(k2, b));
                                assert(prev.bar_live(b));
                                assert(b != pb as int) by {
                                    if b == pb as int {
                                        assert(prev.root_owns_bar(k as int, pb as int));
                                    }
                                }
                            }
                            assert forall|t: int, b: int|
                                #[trigger] s.tile_owns_bar(t, b) implies (prev.tile_owns_bar(
                                t,
                                b,
                            ) || b >= prev.bars@.len()) && s.bar_live(b) by {
                                assert(prev.tile_owns_bar(t, b));
                                assert(prev.bar_live(b));
                                assert(b != pb as int) by {
                                    if b == pb as int {
                                        assert(!(prev.root_owns_bar(k as int, b)
                                            && prev.tile_owns_bar(t, b)));
                                    }
                                }
                            }
                            assert forall|k2: int, b: int|
                                #[trigger] prev.root_owns_bar(k2, b) && s.bar_live(b) && b
                                < prev.bars@.len() implies s.root_owns_bar(k2, b) by {
                                assert(b != pb as int);
                                assert(k2 != k as int) by {
                                    if k2 == k as int {
                                        assert(b == pb as int);
                                    }
                                }
                            }
                            assert forall|t: int, b: int|
                                #[trigger] prev.tile_owns_bar(t, b) && s.bar_live(b) && b
                                < prev.bars@.len() implies s.tile_owns_bar(t, b) by {}
                            assert forall|b: int|
                                0 <= b < s.bars@.len() implies (#[trigger] s.bars@[b]).bar.wf() by {
                                if b != pb as int {
                                    assert(prev.bars@[b].bar.wf());
                                }
                            }
                            lemma_wf_bars_rewire(prev, s);
                            assert forall|i: int|
                                0 <= i < s.n() implies (#[trigger] s.cards@[i]).info.stats.wf() by {
                                assert(prev.cards@[i].info.stats.wf());
                            }
                            assert forall|t1: int, t2: int|
                                0 <= t1 < s.tiles@.len() && 0 <= t2 < s.tiles@.len()
                                    && #[trigger] s.tile_grid(t1) == #[trigger] s.tile_grid(
                                t2,
                                ) implies t1 == t2 by {
                                assert(prev.tile_grid(t1) == s.tile_grid(t1));
                                assert(prev.tile_grid(t2) == s.tile_grid(t2));
                            }
                            assert forall|k2: int|
                                k + 1 <= k2 < o.n() implies (#[trigger] self.stack_roots.roots@[
                                k2]) == o.stack_roots.roots@[k2] && self.stack_roots.queued@[k2]
                                == o.stack_roots.queued@[k2] by {
                                assert(entries_untouched_from(o, prev, k as int));
                                assert(prev.stack_roots.roots@[k2] == o.stack_roots.roots@[k2]);
                                assert(prev.stack_roots.queued@[k2] == o.stack_roots.queued@[k2]);
                            }
                            assert(entries_untouched_from(o, *self, k as int + 1));
                            assert(breed_spawns(o, delta_ms, k as int + 1) == spawns_before
                                + seq![bred_card(o, k as int)]);
                            assert(spawned@.last().0 as int == clamp_coord(
                                o.cards@[k as int].x + CARD_SPAWN_OFFSET,
                            ));
                            assert(spawned_card(
                                CardType::Villager,
                                spawned@.last().0,
                                spawned@.last().1,
                            ) == bred_card(o, k as int));
                            assert forall|k2: int|
                                0 <= k2 < k + 1 implies #[trigger] breed_entry_advanced(
                                o,
                                s,
                                delta_ms,
                                k2,
                            ) by {
                                if k2 < k {
                                    assert(breed_entry_advanced(o, prev, delta_ms, k2));
                                    match o.stack_roots.roots@[k2] {
                                        Option::Some(StackType::Breed { progress_bar: pb2 }) => {
                                            assert(o.root_owns_bar(k2, pb2 as int));
                                            assert(o.root_owns_bar(k as int, pb as int));
                                            assert(pb2 != pb);
                                        },
                                        _ => {},
                                    }
                                }
                            }
                            assert forall|b: int|
                                0 <= b < o.bars@.len() && !(exists|k2: int|
                                    0 <= k2 < k + 1 && o.root_owns_bar(k2, b)) implies self.bars@[
                                b] == #[trigger] o.bars@[b] by {
                                assert(o.root_owns_bar(k as int, pb as int));
                                assert(b != pb as int);
                                assert(!(exists|k2: int|
                                    0 <= k2 < k && o.root_owns_bar(k2, b)));
                                assert(prev.bars@[b] == o.bars@[b]);
                            }
                        }
                    } else {
                        self.bars[pb] = BarEntity { bar, alive: true };
                        proof {
                            let s = *self;
                            assert(s.bars@ =~= prev.bars@.update(
                                pb as int,
                                BarEntity { bar: s.bars@[pb as int].bar, alive: true },
                            ));
                            lemma_wf_bar_value(prev, s, pb as int);
                            assert(!finished_breed(o, delta_ms, k as int));
                            assert forall|k2: int|
                                0 <= k2 < k + 1 implies #[trigger] breed_entry_advanced(
                                o,
                                s,
                                delta_ms,
                                k2,
                            ) by {
                                if k2 < k {
                                    assert(breed_entry_advanced(o, prev, delta_ms, k2));
                                    match o.stack_roots.roots@[k2] {
                                        Option::Some(StackType::Breed { progress_bar: pb2 }) => {
                                            assert(o.root_owns_bar(k2, pb2 as int));
                                            assert(o.root_owns_bar(k as int, pb as int));
                                            assert(pb2 != pb);
                                        },
                                        _ => {},
                                    }
                                } else {
                                    assert(s.stack_roots.roots@[k2] == o.stack_roots.roots@[k2]);
                                }
                            }
                            assert forall|b: int|
                                0 <= b < o.bars@.len() && !(exists|k2: int|
                                    0 <= k2 < k + 1 && o.root_owns_bar(k2, b)) implies self.bars@[
                                b] == #[trigger] o.bars@[b] by {
                                assert(o.root_owns_bar(k as int, pb as int));
                                assert(b != pb as int);
                                assert(!(exists|k2: int|
                                    0 <= k2 < k && o.root_owns_bar(k2, b)));
                                assert(prev.bars@[b] == o.bars@[b]);
                            }
                            assert forall|k2: int|
                                k + 1 <= k2 < o.n() implies (#[trigger] self.stack_roots.roots@[
                                k2]) == o.stack_roots.roots@[k2] && self.stack_roots.queued@[k2]
                                == o.stack_roots.queued@[k2] by {
                                assert(entries_untouched_from(o, prev, k as int));
                                assert(prev.stack_roots.roots@[k2] == o.stack_roots.roots@[k2]);
                                assert(prev.stack_roots.queued@[k2] == o.stack_roots.queued@[k2]);
                            }
                            assert(entries_untouched_from(o, *self, k as int + 1));
                            assert(breed_spawns(o, delta_ms, k as int + 1) =~= spawns_before);
                        }
                    }
                },
                _ => {
                    proof {
                        assert(!finished_breed(o, delta_ms, k as int));
                        assert(breed_spawns(o, delta_ms, k as int + 1) =~= spawns_before);
                        assert forall|k2: int|
                            0 <= k2 < k + 1 implies #[trigger] breed_entry_advanced(
                            o,
                            *self,
                            delta_ms,
                            k2,
                        ) by {
                            if k2 < k {
                                assert(breed_entry_advanced(o, *self, delta_ms, k2));
                            } else {
                                assert(self.stack_roots.roots@[k2] == o.stack_roots.roots@[k2]);
                                assert(self.stack_roots.queued@[k2]
                                    == o.stack_roots.queued@[k2]);
                            }
                        }
                        assert(entries_untouched_from(o, *self, k as int + 1)) by {
                            assert(entries_untouched_from(o, *self, k as int));
                            assert forall|k2: int|
                                k + 1 <= k2 < o.n() implies (#[trigger] self.stack_roots.roots@[
                                k2]) == o.stack_roots.roots@[k2]
                                && self.stack_roots.queued@[k2]
                                == o.stack_roots.queued@[k2] by {
                                assert(self.stack_roots.roots@[k2] == o.stack_roots.roots@[k2]);
                            }
                        }
                    }
                },
            }
            k = k + 1;
        }
        let ghost mid = *self;
        let ghost all_spawns = breed_spawns(o, delta_ms, o.n());
        let mut j: usize = 0;
        while j < spawned.len()
            invariant
                self.wf(),
                j <= spawned@.len(),
                spawned@.len() == all_spawns.len(),
                forall|d: int|
                    0 <= d < spawned@.len() ==> spawned_card(
                        CardType::Villager,
                        (#[trigger] spawned@[d]).0,
                        spawned@[d].1,
                    ) == all_spawns[d],
                self.tiles == mid.tiles,
                self.bars == mid.bars,
                self.selected_card == mid.selected_card,
                self.hover_point == mid.hover_point,
                self.hovered_tile == mid.hovered_tile,
                mid.cards@ == o.cards@,
                self.cards@.len() == o.cards@.len() + j,
                forall|i: int| 0 <= i < o.n() ==> self.cards@[i] == #[trigger] o.cards@[i],
                forall|d: int| 0 <= d < j ==> self.cards@[o.n() + d] == #[trigger] all_spawns[d],
                self.stack_roots.roots@.len() == self.cards@.len(),
                self.stack_roots.queued@.len() == self.cards@.len(),
                forall|k2: int|
                    0 <= k2 < o.n() ==> self.stack_roots.roots@[k2] == #[trigger] mid
                        .stack_roots.roots@[k2] && self.stack_roots.queued@[k2]
                        == mid.stack_roots.queued@[k2],
                forall|k2: int|
                    o.n() <= k2 < self.n() ==> (#[trigger] self.stack_roots.roots@[k2]) is None
                        && !self.stack_roots.queued@[k2],
            decreases spawned@.len() - j,
        {
            let ghost prev = *self;
            let (sx, sy) = spawned[j];
            self.spawn_card(CardType::Villager, sx, sy);
            proof {
                assert(spawned_card(CardType::Villager, sx, sy) == all_spawns[j as int]);
                assert forall|k2: int|
                    0 <= k2 < o.n() implies self.stack_roots.roots@[k2] == #[trigger] mid
                    .stack_roots.roots@[k2] && self.stack_roots.queued@[k2]
                    == mid.stack_roots.queued@[k2] by {
                    assert(prev.stack_roots.roots@[k2] == mid.stack_roots.roots@[k2]);
                    assert(prev.stack_roots.queued@[k2] == mid.stack_roots.queued@[k2]);
                }
                assert forall|k2: int|
                    o.n() <= k2 < self.n() implies (#[trigger] self.stack_roots.roots@[k2])
                    is None && !self.stack_roots.queued@[k2] by {
                    if k2 < prev.n() {
                        assert(prev.stack_roots.roots@[k2] is None);
                        assert(!prev.stack_roots.queued@[k2]);
                    }
                }
            }
            j = j + 1;
        }
        proof {
            let s = *self;
            assert(s.cards@ =~= o.cards@ + all_spawns);
            assert forall|k2: int|
                0 <= k2 < o.n() implies #[trigger] breed_entry_advanced(o, s, delta_ms, k2) by {
                assert(breed_entry_advanced(o, mid, delta_ms, k2));
            }
            assert(phase_b_post(o, s, delta_ms));
        }
    }

    /// Run the evaluator for one tick: drain the queue (phase A), then
    /// advance every breeding timer (phase B). Afterwards every registry
    /// key still heads a stack of at least two cards — phase B only turns
    /// completed breedings back into queued `Pending` entries.
    pub fn evaluate_stacks(&mut self, delta_ms: u64)
        requires
            old(self).wf(),
        ensures
            final(self).wf(),
            evaluate_post(*old(self), *final(self), delta_ms),
            final(self).tiles == old(self).tiles,
            final(self).selected_card == old(self).selected_card,
            final(self).hover_point == old(self).hover_point,
            final(self).hovered_tile == old(self).hovered_tile,
            final(self).cards@.len() >= old(self).cards@.len(),
            forall|k: int|
                0 <= k < final(self).n() ==> ((#[trigger] final(self).stack_roots.roots@[k])
                    is Some ==> final(self).cards@[k].stack_parent is None
                    && final(self).cards@[k].stack_child is Some),
    {
        self.evaluate_phase_a();
        let ghost mid = *self;
        self.evaluate_phase_b(delta_ms);
        proof {
            assert(phase_a_post(*old(self), mid) && phase_b_post(mid, *self, delta_ms));
            assert forall|k: int|
                0 <= k < self.n() && (#[trigger] self.stack_roots.roots@[k]) is Some implies self
                .cards@[k].stack_parent is None && self.cards@[k].stack_child is Some by {
                if k < mid.n() {
                    assert(breed_entry_advanced(mid, *self, delta_ms, k));
                    assert(mid.stack_roots.roots@[k] is Some);
                    assert(mid.proper_root(k));
                    assert(self.cards@[k] == mid.cards@[k]);
                } else {
                    assert(appended_keys_blank(mid, *self));
                }
            }
        }
    }
}

/// The breeding countdown of root `k` runs out within `delta_ms`.
pub open spec fn finished_breed(o: Simulation, delta_ms: u64, k: int) -> bool {
    match o.stack_roots.roots@[k] {
        Option::Some(StackType::Breed { progress_bar }) => o.bars@[
            progress_bar as int
        ].bar.current_ms + delta_ms >= o.bars@[progress_bar as int].bar.total_ms,
        _ => false,
    }
}

/// The villager a completed breeding spawns, beside its root.
pub open spec fn bred_card(o: Simulation, k: int) -> Card {
    spawned_card(
        CardType::Villager,
        clamp_coord(o.cards@[k].x + CARD_SPAWN_OFFSET) as i64,
        o.cards@[k].y,
    )
}

/// The villagers all completed breedings spawn this tick, in root order.
pub open spec fn breed_spawns(o: Simulation, delta_ms: u64, upto: int) -> Seq<Card>
    decreases upto,
{
    if upto <= 0 {
        Seq::empty()
    } else {
        breed_spawns(o, delta_ms, upto - 1) + if finished_breed(o, delta_ms, upto - 1) {
            seq![bred_card(o, upto - 1)]
        } else {
            Seq::empty()
        }
    }
}

/// After phase B, entry `k` shows the advanced state: a completed breeding
/// went back to `Pending`, requeued, its timer despawned; a running one
/// merely gained time; anything else is untouched.
pub open spec fn breed_entry_advanced(o: Simulation, s: Simulation, delta_ms: u64, k: int) -> bool {
    match o.stack_roots.roots@[k] {
        Option::Some(StackType::Breed { progress_bar }) => {
            let pb = progress_bar as int;
            if finished_breed(o, delta_ms, k) {
                &&& s.stack_roots.roots@[k] == Option::Some(StackType::Pending)
                &&& s.stack_roots.queued@[k]
                &&& !s.bars@[pb].alive
                &&& s.bars@[pb].bar.total_ms == o.bars@[pb].bar.total_ms
            } else {
                &&& s.stack_roots.roots@[k] == o.stack_roots.roots@[k]
                &&& s.stack_roots.queued@[k] == o.stack_roots.queued@[k]
                &&& s.bars@[pb].alive
                &&& s.bars@[pb].bar.total_ms == o.bars@[pb].bar.total_ms
                &&& s.bars@[pb].bar.current_ms == o.bars@[pb].bar.current_ms + delta_ms
            }
        },
        _ => s.stack_roots.roots@[k] == o.stack_roots.roots@[k] && s.stack_roots.queued@[k]
            == o.stack_roots.queued@[k],
    }
}

/// Registry entries and queue flags at keys from `from` on are as `o` left
/// them.
pub open spec fn entries_untouched_from(o: Simulation, s: Simulation, from: int) -> bool {
    forall|k2: int|
        from <= k2 < o.n() ==> (#[trigger] s.stack_roots.roots@[k2]) == o.stack_roots.roots@[k2]
            && s.stack_roots.queued@[k2] == o.stack_roots.queued@[k2]
}

pub open spec fn breed_entries_advanced_upto(
    o: Simulation,
    s: Simulation,
    delta_ms: u64,
    upto: int,
) -> bool {
    forall|k: int| 0 <= k < upto ==> #[trigger] breed_entry_advanced(o, s, delta_ms, k)
}

/// Key `k` is rewritten by a drain of `o`'s queue: it is queued itself or
/// is the root of a queued card.
pub open spec fn touched(o: Simulation, k: int) -> bool {
    touched_upto(o, k, o.n())
}

/// The same, for the queued keys below `upto`.
pub open spec fn touched_upto(o: Simulation, k: int, upto: int) -> bool {
    ||| (0 <= k < upto && o.stack_roots.queued@[k])
    ||| exists|k2: int|
        0 <= k2 < upto && #[trigger] o.stack_roots.queued@[k2] && o.stack_root_of(k2) == k
}

/// After a drain, root `r` carries its freshly computed classification; a
/// breeding root owns a live countdown that has just started, over the full
/// breeding duration.
pub open spec fn classified(o: Simulation, s: Simulation, r: int) -> bool {
    &&& (o.proper_root(r) && o.breed_condition(r) ==> (match s.stack_roots.roots@[r] {
        Option::Some(StackType::Breed { progress_bar }) => {
            &&& (progress_bar as int) < s.bars@.len()
            &&& s.bars@[progress_bar as int] == BarEntity {
                bar: ProgressBar { current_ms: 0, total_ms: BREED_DURATION_MS },
                alive: true,
            }
        },
        _ => false,
    }))
    &&& (o.proper_root(r) && !o.breed_condition(r) ==> s.stack_roots.roots@[r] == Option::Some(
        StackType::Nothing,
    ))
    &&& (!o.proper_root(r) ==> s.stack_roots.roots@[r] is None)
}

/// Everything `evaluate_phase_a` leaves behind: the queue drained, the
/// registry holding an entry exactly at the heads of non-trivial stacks,
/// every queued card's root freshly classified, untouched keys and surviving
/// timers exactly as they were, every cancelled breeding timer despawned —
/// and, with nothing queued, no change at all.
pub open spec fn phase_a_post(o: Simulation, s: Simulation) -> bool {
    &&& s.cards == o.cards
    &&& s.tiles == o.tiles
    &&& s.selected_card == o.selected_card
    &&& s.hover_point == o.hover_point
    &&& s.hovered_tile == o.hovered_tile
    &&& s.bars@.len() >= o.bars@.len()
    &&& forall|k: int| 0 <= k < s.n() ==> !(#[trigger] s.stack_roots.queued@[k])
    &&& forall|k: int|
        0 <= k < s.n() ==> ((#[trigger] s.stack_roots.roots@[k]) is Some <==> s.proper_root(k))
    &&& forall|k: int|
        0 <= k < o.n() && #[trigger] o.stack_roots.queued@[k] ==> classified(
            o,
            s,
            o.stack_root_of(k),
        )
    &&& forall|k: int|
        0 <= k < o.n() && !touched(o, k) ==> s.stack_roots.roots@[k]
            == #[trigger] o.stack_roots.roots@[k]
    &&& forall|b: int|
        0 <= b < o.bars@.len() && (#[trigger] s.bars@[b]).alive ==> s.bars@[b] == o.bars@[b]
            && o.bars@[b].alive
    &&& forall|k: int|
        0 <= k < o.n() && touched(o, k) ==> (match (#[trigger] o.stack_roots.roots@[k]) {
            Option::Some(StackType::Breed { progress_bar }) => !s.bars@[
                progress_bar as int
            ].alive,
            _ => true,
        })
    &&& ((forall|k: int| 0 <= k < o.n() ==> !(#[trigger] o.stack_roots.queued@[k])) ==> s == o)
}

/// Everything `evaluate_phase_b` leaves behind: every breeding countdown
/// advanced or completed (`breed_entry_advanced`), one villager spawned per
/// completed breeding, in root order, and all other timers untouched.
pub open spec fn phase_b_post(o: Simulation, s: Simulation, delta_ms: u64) -> bool {
    &&& s.tiles == o.tiles
    &&& s.selected_card == o.selected_card
    &&& s.hover_point == o.hover_point
    &&& s.hovered_tile == o.hovered_tile
    &&& s.bars@.len() == o.bars@.len()
    &&& s.cards@ == o.cards@ + breed_spawns(o, delta_ms, o.n())
    &&& breed_entries_advanced_upto(o, s, delta_ms, o.n())
    &&& appended_keys_blank(o, s)
    &&& forall|b: int|
        0 <= b < o.bars@.len() && !(exists|k: int| o.root_owns_bar(k, b)) ==> s.bars@[b]
            == #[trigger] o.bars@[b]
}

/// One whole evaluator run: a drain followed by the timer pass, through
/// some intermediate state.
pub open spec fn evaluate_post(o: Simulation, s: Simulation, delta_ms: u64) -> bool {
    exists|mid: Simulation| #[trigger] phase_a_post(o, mid) && phase_b_post(mid, s, delta_ms)
}

} // verus!
