//! The engine's global laws, each proved from the well-formedness invariant
//! that every public operation of [`Simulation`] preserves: the laws hold in
//! every reachable state.

use vstd::prelude::*;

use crate::chain::{
    chain, lemma_chain_le_len, lemma_chain_shape, mirror_ok, points_to, settles,
};
use crate::sim::Simulation;

verus! {

/// Acyclicity: following `stack_child` from any card settles — at a card
/// with no child — within as many steps as there are cards, and so does
/// following `stack_parent`. A stack never loops back on itself.
pub proof fn lemma_acyclicity(s: Simulation, i: int)
    requires
        s.wf(),
        0 <= i < s.n(),
    ensures
        settles(s.child_links(), i, s.cards@.len()),
        settles(s.parent_links(), i, s.cards@.len()),
        s.stack_seq(i).len() <= s.n(),
        0 <= s.stack_top_of(i) < s.n(),
        s.cards@[s.stack_top_of(i)].stack_child is None,
        0 <= s.stack_root_of(i) < s.n(),
        s.cards@[s.stack_root_of(i)].stack_parent is None,
{
    assert(settles(s.child_links(), i, s.cards@.len()));
    assert(settles(s.parent_links(), i, s.cards@.len()));
    lemma_chain_le_len(s.child_links(), i, s.cards@.len());
    lemma_chain_shape(s.child_links(), i, s.cards@.len());
    lemma_chain_shape(s.parent_links(), i, s.cards@.len());
}

/// Symmetry: card `a` lists `b` as its child exactly when card `b` lists
/// `a` as its parent.
pub proof fn lemma_symmetry(s: Simulation, a: int, b: int)
    requires
        s.wf(),
        0 <= a < s.n(),
        0 <= b < s.n(),
    ensures
        points_to(s.child_links(), a, b) <==> points_to(s.parent_links(), b, a),
{
    assert(mirror_ok(s.child_links(), s.parent_links(), a));
    assert(mirror_ok(s.parent_links(), s.child_links(), b));
}

/// Mutual exclusivity: a card sitting in a tile slot is in no stack — it
/// has neither a parent nor a child.
pub proof fn lemma_mutual_exclusivity(s: Simulation, i: int)
    requires
        s.wf(),
        0 <= i < s.n(),
        s.cards@[i].slotted_in_tile is Some,
    ensures
        s.cards@[i].stack_parent is None,
        s.cards@[i].stack_child is None,
{
    assert(s.card_slot_ok(i));
}

/// Registry consistency: while the recomputation queue is empty — which
/// `evaluate_phase_a` ensures — the registry holds an entry exactly at the
/// cards that head a stack of at least two; in particular every key has
/// `stack_parent == None`.
pub proof fn lemma_registry_consistency(s: Simulation, k: int)
    requires
        s.wf(),
        forall|j: int| 0 <= j < s.n() ==> !(#[trigger] s.stack_roots.queued@[j]),
        0 <= k < s.n(),
    ensures
        s.stack_roots.roots@[k] is Some <==> (s.cards@[k].stack_parent is None
            && s.cards@[k].stack_child is Some),
{
    assert(s.registry_ok(k));
}

/// Timer discipline: every timer owned by a breeding entry or a tile is
/// alive; distinct owners never share a timer; and every live timer has an
/// owner. Together with `despawn` demanding a live timer, a timer is
/// despawned at most once and can never leak.
pub proof fn lemma_timer_ownership(s: Simulation, b: int)
    requires
        s.wf(),
        0 <= b < s.bars@.len(),
    ensures
        forall|k: int| #[trigger] s.root_owns_bar(k, b) ==> s.bar_live(b),
        forall|t: int| #[trigger] s.tile_owns_bar(t, b) ==> s.bar_live(b),
        forall|k1: int, k2: int|
            #[trigger] s.root_owns_bar(k1, b) && #[trigger] s.root_owns_bar(k2, b) ==> k1 == k2,
        forall|t1: int, t2: int|
            #[trigger] s.tile_owns_bar(t1, b) && #[trigger] s.tile_owns_bar(t2, b) ==> t1 == t2,
        forall|k: int, t: int| !(#[trigger] s.root_owns_bar(k, b) && #[trigger] s.tile_owns_bar(t, b)),
        s.bars@[b].alive ==> s.bar_owned(b),
{
}

/// Stacks from two distinct roots never share a member: each card belongs
/// to at most one stack.
pub proof fn lemma_stacks_disjoint(s: Simulation, r1: int, r2: int, v: int)
    requires
        s.wf(),
        0 <= r1 < s.n(),
        0 <= r2 < s.n(),
        r1 != r2,
        s.cards@[r1].stack_parent is None,
        s.cards@[r2].stack_parent is None,
        s.stack_seq(r1).contains(v),
    ensures
        !s.stack_seq(r2).contains(v),
{
    if s.stack_seq(r2).contains(v) {
        assert(settles(s.child_links(), r1, s.cards@.len()));
        assert(settles(s.child_links(), r2, s.cards@.len()));
        crate::chain::lemma_member_back(
            s.child_links(),
            s.parent_links(),
            r1,
            s.cards@.len(),
            v,
        );
        crate::chain::lemma_member_back(
            s.child_links(),
            s.parent_links(),
            r2,
            s.cards@.len(),
            v,
        );
    }
}

} // verus!
