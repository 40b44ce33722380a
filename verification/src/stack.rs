//! The card relationship graph: traversal, stacking and unstacking.

use vstd::prelude::*;

use crate::card::Card;
use crate::chain::{
    chain, lemma_chain_shape, lemma_chain_step, lemma_link_acyclic, lemma_member_back,
    lemma_no_self_loop, lemma_unlink_acyclic, link_ok, mirror_ok, points_to, settles,
};
use crate::sim::{entry_is_breed, lemma_bars_same, Simulation, StackType};

verus! {

/// The two cards agree on everything but their stack links.
pub open spec fn same_card_apart_links(a: Card, b: Card) -> bool {
    &&& a.info == b.info
    &&& a.slotted_in_tile == b.slotted_in_tile
    &&& a.x == b.x
    &&& a.y == b.y
    &&& a.z == b.z
}

/// What a successful `attempt_stack(x, y)` leaves behind: `x` linked under
/// the old top `t` of `y`'s stack; the combined root `r` queued, and given a
/// fresh `Pending` entry when it had none (it has just become — or stayed —
/// a stack top with a descendant); `x` queued as well when it carried a
/// sub-stack of its own; everything else untouched.
pub open spec fn stacked_outcome(o: Simulation, s: Simulation, x: int, y: int) -> bool {
    let t = o.stack_top_of(y);
    let r = o.stack_root_of(t);
    &&& s.cards@.len() == o.cards@.len()
    &&& points_to(s.child_links(), t, x)
    &&& points_to(s.parent_links(), x, t)
    &&& same_card_apart_links(s.cards@[t], o.cards@[t])
    &&& s.cards@[t].stack_parent == o.cards@[t].stack_parent
    &&& same_card_apart_links(s.cards@[x], o.cards@[x])
    &&& s.cards@[x].stack_child == o.cards@[x].stack_child
    &&& forall|i: int| 0 <= i < o.n() && i != t && i != x ==> s.cards@[i] == #[trigger] o.cards@[i]
    &&& s.stack_roots.queued@[r]
    &&& (o.cards@[x].stack_child is Some ==> s.stack_roots.queued@[x])
    &&& (o.cards@[x].stack_child is None ==> s.stack_roots.queued@[x] == o.stack_roots.queued@[x])
    &&& forall|k: int|
        0 <= k < o.n() && k != r && k != x ==> s.stack_roots.queued@[k]
            == #[trigger] o.stack_roots.queued@[k]
    &&& (o.stack_roots.roots@[r] is None ==> s.stack_roots.roots@ == o.stack_roots.roots@.update(
        r,
        Option::Some(StackType::Pending),
    ))
    &&& (o.stack_roots.roots@[r] is Some ==> s.stack_roots.roots@ == o.stack_roots.roots@)
    &&& s.tiles == o.tiles
    &&& s.bars == o.bars
    &&& s.selected_card == o.selected_card
    &&& s.hover_point == o.hover_point
    &&& s.hovered_tile == o.hovered_tile
}

/// One stacking step, as a relation between states: the successful outcome
/// when the move is allowed, no change otherwise.
pub open spec fn stack_step_rel(o: Simulation, s: Simulation, x: int, y: int) -> bool {
    if o.stack_allowed(x, y) {
        stacked_outcome(o, s, x, y)
    } else {
        s == o
    }
}

impl Simulation {
    /// Follow `stack_child` from `start` to the topmost card of its stack.
    pub fn find_stack_top(&self, start: usize) -> (top: usize)
        requires
            self.wf_core(),
            (start as int) < self.n(),
        ensures
            top as int == self.stack_top_of(start as int),
            (top as int) < self.n(),
            self.cards@[top as int].stack_child is None,
    {
        proof {
            assert(settles(self.child_links(), start as int, self.cards@.len()));
        }
        let mut cur = start;
        loop
            invariant
                self.wf_core(),
                (cur as int) < self.n(),
                settles(self.child_links(), cur as int, self.cards@.len()),
                chain(self.child_links(), cur as int, self.cards@.len()).last()
                    == self.stack_top_of(start as int),
            decreases chain(self.child_links(), cur as int, self.cards@.len()).len(),
        {
            match self.cards[cur].stack_child {
                None => {
                    proof {
                        assert(self.child_links()[cur as int] is None);
                        assert(chain(self.child_links(), cur as int, self.cards@.len())
                            == seq![cur as int]);
                    }
                    return cur;
                },
                Some(j) => {
                    proof {
                        assert(self.child_links()[cur as int] == Option::Some(j));
                        lemma_chain_step(self.child_links(), cur as int, j, self.cards@.len());
                    }
                    cur = j;
                },
            }
        }
    }

    /// Follow `stack_parent` from `start` to the root of its stack.
    pub fn find_stack_root(&self, start: usize) -> (root: usize)
        requires
            self.wf_core(),
            (start as int) < self.n(),
        ensures
            root as int == self.stack_root_of(start as int),
            (root as int) < self.n(),
            self.cards@[root as int].stack_parent is None,
    {
        proof {
            assert(settles(self.parent_links(), start as int, self.cards@.len()));
        }
        let mut cur = start;
        loop
            invariant
                self.wf_core(),
                (cur as int) < self.n(),
                settles(self.parent_links(), cur as int, self.cards@.len()),
                chain(self.parent_links(), cur as int, self.cards@.len()).last()
                    == self.stack_root_of(start as int),
            decreases chain(self.parent_links(), cur as int, self.cards@.len()).len(),
        {
            match self.cards[cur].stack_parent {
                None => {
                    proof {
                        assert(self.parent_links()[cur as int] is None);
                        assert(chain(self.parent_links(), cur as int, self.cards@.len())
                            == seq![cur as int]);
                    }
                    return cur;
                },
                Some(j) => {
                    proof {
                        assert(self.parent_links()[cur as int] == Option::Some(j));
                        lemma_chain_step(self.parent_links(), cur as int, j, self.cards@.len());
                    }
                    cur = j;
                },
            }
        }
    }

    /// When `attempt_stack(x, y)` places `x` on top of `y`'s stack: `x` is
    /// not held, not already parented, both `x` and the landing card are
    /// stackable, and `x` does not already belong to that stack (which the
    /// root check rules out; it is what keeps the graph acyclic).
    pub open spec fn stack_allowed(self, x: int, y: int) -> bool {
        &&& 0 <= x < self.n()
        &&& 0 <= y < self.n()
        &&& match self.selected_card {
            Option::Some(c) => c as int != x && c as int != y,
            Option::None => true,
        }
        &&& self.cards@[x].stack_parent is None
        &&& self.cards@[x].is_stackable_spec()
        &&& self.cards@[self.stack_top_of(y)].is_stackable_spec()
        &&& self.stack_root_of(self.stack_top_of(y)) != x
    }

    /// Try to place card `x` atop the stack that card `y` belongs to. On
    /// success the topmost card of `y`'s stack gains `x` as its child, the
    /// root of the combined stack is enqueued for reclassification, and so
    /// is `x` itself when it brought its own sub-stack along (its registry
    /// entry has become stale). Precondition violations are silently
    /// rejected: contact events may legitimately race against earlier
    /// mutations.
    pub fn attempt_stack(&mut self, x: usize, y: usize) -> (ok: bool)
        requires
            old(self).wf(),
        ensures
            final(self).wf(),
            ok == old(self).stack_allowed(x as int, y as int),
            !ok ==> *final(self) == *old(self),
            ok ==> stacked_outcome(*old(self), *final(self), x as int, y as int),
            stack_step_rel(*old(self), *final(self), x as int, y as int),
    {
        if x >= self.cards.len() || y >= self.cards.len() {
            return false;
        }
        match self.selected_card {
            Some(c) => {
                if c == x || c == y {
                    return false;
                }
            },
            None => {},
        }
        if self.cards[x].stack_parent.is_some() {
            return false;
        }
        let cx = self.cards[x];
        if !cx.is_stackable() {
            return false;
        }
        let t = self.find_stack_top(y);
        let ct = self.cards[t];
        if !ct.is_stackable() {
            return false;
        }
        let r = self.find_stack_root(t);
        if r == x {
            return false;
        }
        let ghost o = *old(self);
        let ghost n = o.cards@.len();
        let ghost c0 = o.child_links();
        let ghost p0 = o.parent_links();
        proof {
            assert(settles(p0, t as int, n));
            assert(settles(c0, x as int, n));
            // `x` is parentless, so it could only sit at the very end of the
            // walk from `t` down to the root — and that end is `r`, not `x`.
            assert(!chain(p0, t as int, n).contains(x as int)) by {
                if chain(p0, t as int, n).contains(x as int) {
                    lemma_chain_shape(p0, t as int, n);
                    let k = choose|k: int|
                        0 <= k < chain(p0, t as int, n).len() && chain(p0, t as int, n)[k]
                            == x as int;
                    if k < chain(p0, t as int, n).len() - 1 {
                        assert(points_to(p0, x as int, chain(p0, t as int, n)[k + 1]));
                    }
                }
            }
            // And by symmetry the walk up from `x` cannot meet `t` either.
            assert(!chain(c0, x as int, n).contains(t as int)) by {
                if chain(c0, x as int, n).contains(t as int) {
                    lemma_member_back(c0, p0, x as int, n, t as int);
                }
            }
            assert(x != t) by {
                if x == t {
                    assert(p0[x as int] is None);
                    assert(chain(p0, t as int, n) == seq![t as int]);
                }
            }
        }
        let x_had_child = self.cards[x].stack_child.is_some();
        let mut ct2 = self.cards[t];
        ct2.stack_child = Some(x);
        self.cards[t] = ct2;
        let mut cx2 = self.cards[x];
        cx2.stack_parent = Some(t);
        self.cards[x] = cx2;
        self.stack_roots.queued[r] = true;
        if x_had_child {
            self.stack_roots.queued[x] = true;
        }
        // the combined stack's root heads a non-trivial stack now: give it
        // a pending entry if it had none (it is queued, so the next drain
        // classifies it)
        if self.stack_roots.roots[r].is_none() {
            self.stack_roots.roots[r] = Some(StackType::Pending);
            proof {
                assert(self.stack_roots.roots@ =~= old(
                    self,
                ).stack_roots.roots@.update(r as int, Option::Some(StackType::Pending)));
            }
        }
        proof {
            let s = *self;
            let c1 = s.child_links();
            let p1 = s.parent_links();
            assert(c1 =~= c0.update(t as int, Option::Some(x)));
            assert(p1 =~= p0.update(x as int, Option::Some(t)));
            lemma_link_acyclic(c0, t as int, x);
            lemma_link_acyclic(p0, x as int, t);
            assert forall|i: int| 0 <= i < c1.len() implies #[trigger] mirror_ok(c1, p1, i) by {
                assert(mirror_ok(c0, p0, i));
                if i != t as int {
                    match c0[i] {
                        Option::Some(j) => {
                            assert(points_to(p0, j as int, i));
                            assert(j != x);
                        },
                        Option::None => {},
                    }
                }
            }
            assert forall|i: int| 0 <= i < p1.len() implies #[trigger] mirror_ok(p1, c1, i) by {
                assert(mirror_ok(p0, c0, i));
                if i != x as int {
                    match p0[i] {
                        Option::Some(j) => {
                            assert(points_to(c0, j as int, i));
                            assert(j != t);
                        },
                        Option::None => {},
                    }
                }
            }
            assert forall|i: int| 0 <= i < s.n() implies #[trigger] s.card_slot_ok(i) by {
                assert(o.card_slot_ok(i));
            }
            assert forall|t2: int|
                0 <= t2 < s.tiles@.len() implies #[trigger] s.tile_slot_ok(t2) by {
                assert(o.tile_slot_ok(t2));
            }
            assert(t as int != r as int ==> o.cards@[t as int].stack_parent is Some) by {
                if o.cards@[t as int].stack_parent is None {
                    assert(p0[t as int] is None);
                    assert(chain(p0, t as int, n) == seq![t as int]);
                }
            }
            assert forall|k: int| 0 <= k < s.n() implies #[trigger] s.registry_ok(k) by {
                assert(o.registry_ok(k));
            }
            lemma_bars_same(o, s);
            assert forall|i: int|
                0 <= i < s.n() implies (#[trigger] s.cards@[i]).info.stats.wf() by {
                assert(o.cards@[i].info.stats.wf());
            }
            assert forall|t1: int, t2: int|
                0 <= t1 < s.tiles@.len() && 0 <= t2 < s.tiles@.len() && #[trigger] s.tile_grid(t1)
                    == #[trigger] s.tile_grid(t2) implies t1 == t2 by {
                assert(o.tile_grid(t1) == s.tile_grid(t1));
                assert(o.tile_grid(t2) == s.tile_grid(t2));
            }
        }
        true
    }

    /// Detach `card` from its parent, returning the old `(parent, child)`
    /// pair. When a parent existed, the parent's child link is cleared and
    /// the parent enqueued; a card that kept a child of its own is promoted
    /// to a pending root and enqueued as well. Without a parent this is a
    /// no-op.
    pub fn unstack(&mut self, card: usize) -> (r: (Option<usize>, Option<usize>))
        requires
            old(self).wf(),
            (card as int) < old(self).n(),
        ensures
            final(self).wf(),
            r == (
                old(self).cards@[card as int].stack_parent,
                old(self).cards@[card as int].stack_child,
            ),
            old(self).cards@[card as int].stack_parent is None ==> *final(self) == *old(self),
            old(self).cards@[card as int].stack_parent matches Some(p) ==> ({
                let o = *old(self);
                let s = *final(self);
                &&& s.cards@.len() == o.cards@.len()
                &&& s.cards@[card as int].stack_parent is None
                &&& s.cards@[p as int].stack_child is None
                &&& same_card_apart_links(s.cards@[card as int], o.cards@[card as int])
                &&& s.cards@[card as int].stack_child == o.cards@[card as int].stack_child
                &&& same_card_apart_links(s.cards@[p as int], o.cards@[p as int])
                &&& s.cards@[p as int].stack_parent == o.cards@[p as int].stack_parent
                &&& forall|i: int|
                    0 <= i < o.n() && i != card as int && i != p as int ==> s.cards@[i]
                        == #[trigger] o.cards@[i]
                &&& s.stack_roots.queued@[p as int]
                &&& s.stack_roots.queued@[card as int] == (o.stack_roots.queued@[card as int]
                    || o.cards@[card as int].stack_child is Some)
                &&& forall|k: int|
                    0 <= k < o.n() && k != p as int && k != card as int
                        ==> s.stack_roots.queued@[k] == #[trigger] o.stack_roots.queued@[k]
                &&& (o.cards@[card as int].stack_child is Some && o.stack_roots.roots@[
                    card as int
                ] is None) ==> s.stack_roots.roots@[card as int] == Option::Some(
                    StackType::Pending,
                )
                &&& !(o.cards@[card as int].stack_child is Some && o.stack_roots.roots@[
                    card as int
                ] is None) ==> s.stack_roots.roots@[card as int] == o.stack_roots.roots@[
                    card as int
                ]
                &&& forall|k: int|
                    0 <= k < o.n() && k != card as int ==> s.stack_roots.roots@[k]
                        == #[trigger] o.stack_roots.roots@[k]
                &&& s.tiles == o.tiles
                &&& s.bars == o.bars
                &&& s.selected_card == o.selected_card
                &&& s.hover_point == o.hover_point
                &&& s.hovered_tile == o.hovered_tile
            }),
    {
        let c = self.cards[card];
        match c.stack_parent {
            None => (None, c.stack_child),
            Some(p) => {
                let ghost o = *old(self);
                let ghost n = o.cards@.len();
                let ghost c0 = o.child_links();
                let ghost p0 = o.parent_links();
                proof {
                    assert(link_ok(p0, card as int));
                    assert(settles(p0, card as int, n));
                    lemma_no_self_loop(p0, card as int, n);
                    assert(p != card);
                    assert(mirror_ok(p0, c0, card as int));
                    assert(points_to(c0, p as int, card as int));
                }
                let mut cm = self.cards[card];
                cm.stack_parent = None;
                self.cards[card] = cm;
                let mut pm = self.cards[p];
                pm.stack_child = None;
                self.cards[p] = pm;
                self.stack_roots.queued[p] = true;
                if c.stack_child.is_some() {
                    // Keep an existing (stale, already queued) entry: the
                    // evaluator will reclassify it and cancel what it owns.
                    let existing = self.stack_roots.roots[card];
                    if existing.is_none() {
                        self.stack_roots.roots[card] = Some(StackType::Pending);
                    }
                    self.stack_roots.queued[card] = true;
                }
                proof {
                    let s = *self;
                    let c1 = s.child_links();
                    let p1 = s.parent_links();
                    assert(c1 =~= c0.update(p as int, Option::None));
                    assert(p1 =~= p0.update(card as int, Option::None));
                    lemma_unlink_acyclic(c0, p as int);
                    lemma_unlink_acyclic(p0, card as int);
                    assert forall|i: int|
                        0 <= i < c1.len() implies #[trigger] mirror_ok(c1, p1, i) by {
                        assert(mirror_ok(c0, p0, i));
                        if i != p as int {
                            match c0[i] {
                                Option::Some(j) => {
                                    assert(points_to(p0, j as int, i));
                                    assert(j != card);
                                },
                                Option::None => {},
                            }
                        }
                    }
                    assert forall|i: int|
                        0 <= i < p1.len() implies #[trigger] mirror_ok(p1, c1, i) by {
                        assert(mirror_ok(p0, c0, i));
                        if i != card as int {
                            match p0[i] {
                                Option::Some(j) => {
                                    assert(points_to(c0, j as int, i));
                                    assert(j != p);
                                },
                                Option::None => {},
                            }
                        }
                    }
                    assert(o.cards@[card as int].slotted_in_tile is None) by {
                        assert(o.card_slot_ok(card as int));
                    }
                    assert(o.cards@[p as int].slotted_in_tile is None) by {
                        assert(o.card_slot_ok(p as int));
                    }
                    assert forall|i: int| 0 <= i < s.n() implies #[trigger] s.card_slot_ok(i) by {
                        assert(o.card_slot_ok(i));
                    }
                    assert forall|t2: int|
                        0 <= t2 < s.tiles@.len() implies #[trigger] s.tile_slot_ok(t2) by {
                        assert(o.tile_slot_ok(t2));
                    }
                    assert forall|k: int| 0 <= k < s.n() implies #[trigger] s.registry_ok(k) by {
                        assert(o.registry_ok(k));
                    }
                    lemma_bars_same(o, s);
                    assert forall|i: int|
                        0 <= i < s.n() implies (#[trigger] s.cards@[i]).info.stats.wf() by {
                        assert(o.cards@[i].info.stats.wf());
                    }
                    assert forall|t1: int, t2: int|
                        0 <= t1 < s.tiles@.len() && 0 <= t2 < s.tiles@.len()
                            && #[trigger] s.tile_grid(t1) == #[trigger] s.tile_grid(
                        t2,
                        ) implies t1 == t2 by {
                        assert(o.tile_grid(t1) == s.tile_grid(t1));
                        assert(o.tile_grid(t2) == s.tile_grid(t2));
                    }
                }
                (Some(p), c.stack_child)
            },
        }
    }
}

} // verus!
