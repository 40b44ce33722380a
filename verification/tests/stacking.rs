//! Stack-graph behaviour: contact-driven stacking, unstacking, traversal.

use cardstacks::card::CardType;
use cardstacks::sim::{Simulation, StackType};

fn two_villagers() -> (Simulation, usize, usize) {
    let mut sim = Simulation::new();
    let a = sim.spawn_card(CardType::Villager, 500, 0);
    let b = sim.spawn_card(CardType::Villager, -500, 0);
    (sim, a, b)
}

#[test]
fn attempt_stack_links_both_directions() {
    let (mut sim, a, b) = two_villagers();
    assert!(sim.attempt_stack(a, b));
    assert_eq!(sim.cards[a].stack_parent, Some(b));
    assert_eq!(sim.cards[b].stack_child, Some(a));
    assert_eq!(sim.cards[b].stack_parent, None);
    assert_eq!(sim.cards[a].stack_child, None);
    // the new stack top immediately holds a pending registry entry and is
    // queued for reclassification
    assert_eq!(sim.stack_roots.roots[b], Some(StackType::Pending));
    assert_eq!(sim.stack_roots.roots[a], None);
    assert!(sim.stack_roots.queued[b]);
}

#[test]
fn attempt_stack_rejects_parented_top() {
    let (mut sim, a, b) = two_villagers();
    let c = sim.spawn_card(CardType::Villager, 0, 500);
    assert!(sim.attempt_stack(a, b));
    // `a` already has a parent, so it cannot land on `c`
    assert!(!sim.attempt_stack(a, c));
    assert_eq!(sim.cards[c].stack_child, None);
}

#[test]
fn attempt_stack_rejects_goblins() {
    let mut sim = Simulation::new();
    let v = sim.spawn_card(CardType::Villager, 0, 0);
    let g = sim.spawn_card(CardType::Goblin, 500, 0);
    assert!(!sim.attempt_stack(g, v));
    assert!(!sim.attempt_stack(v, g));
}

#[test]
fn attempt_stack_rejects_own_stack() {
    let (mut sim, a, b) = two_villagers();
    assert!(sim.attempt_stack(a, b));
    // placing the root back onto its own stack would close a cycle
    assert!(!sim.attempt_stack(b, a));
    assert!(!sim.attempt_stack(b, b));
    assert_eq!(sim.cards[a].stack_child, None);
}

#[test]
fn attempt_stack_rejects_held_cards() {
    let (mut sim, a, b) = two_villagers();
    sim.pointer_down(Some(a));
    assert_eq!(sim.selected_card, Some(a));
    assert!(!sim.attempt_stack(a, b));
    assert!(!sim.attempt_stack(b, a));
}

#[test]
fn attempt_stack_lands_on_top_of_chain() {
    let (mut sim, a, b) = two_villagers();
    let c = sim.spawn_card(CardType::Villager, 0, 500);
    assert!(sim.attempt_stack(a, b));
    // `c` dropped onto the bottom card still lands on the topmost card `a`
    assert!(sim.attempt_stack(c, b));
    assert_eq!(sim.cards[a].stack_child, Some(c));
    assert_eq!(sim.cards[c].stack_parent, Some(a));
    assert_eq!(sim.find_stack_top(b), c);
    assert_eq!(sim.find_stack_root(c), b);
}

#[test]
fn unstack_detaches_and_enqueues_parent() {
    let (mut sim, a, b) = two_villagers();
    assert!(sim.attempt_stack(a, b));
    let (parent, child) = sim.unstack(a);
    assert_eq!(parent, Some(b));
    assert_eq!(child, None);
    assert_eq!(sim.cards[a].stack_parent, None);
    assert_eq!(sim.cards[b].stack_child, None);
    assert!(sim.stack_roots.queued[b]);
}

#[test]
fn unstack_without_parent_is_a_noop() {
    let (mut sim, a, b) = two_villagers();
    assert!(sim.attempt_stack(a, b));
    let (parent, child) = sim.unstack(b);
    assert_eq!(parent, None);
    assert_eq!(child, Some(a));
    assert_eq!(sim.cards[b].stack_child, Some(a));
}

#[test]
fn unstack_promotes_carried_substack() {
    let (mut sim, a, b) = two_villagers();
    let c = sim.spawn_card(CardType::Villager, 0, 500);
    assert!(sim.attempt_stack(a, b));
    assert!(sim.attempt_stack(c, a));
    // detaching the middle card takes its child along and becomes a
    // pending root
    let (parent, child) = sim.unstack(a);
    assert_eq!(parent, Some(b));
    assert_eq!(child, Some(c));
    assert_eq!(sim.cards[a].stack_child, Some(c));
    assert_eq!(sim.stack_roots.roots[a], Some(StackType::Pending));
    assert!(sim.stack_roots.queued[a]);
    assert!(sim.stack_roots.queued[b]);
}

#[test]
fn collide_orients_by_depth() {
    let (mut sim, a, b) = two_villagers();
    sim.cards[a].z = 10;
    let contacts = vec![(a, b)];
    sim.collide_cards(&contacts);
    // the deeper card `a` sits on top of `b`
    assert_eq!(sim.cards[a].stack_parent, Some(b));
    assert_eq!(sim.cards[b].stack_child, Some(a));
}

#[test]
fn collide_breaks_depth_ties_by_id() {
    let (mut sim, a, b) = two_villagers();
    let contacts = vec![(b, a)];
    sim.collide_cards(&contacts);
    // equal depth: the lower id `a` becomes the base, whatever the event
    // order said
    assert_eq!(sim.cards[b].stack_parent, Some(a));
    assert_eq!(sim.cards[a].stack_child, Some(b));
}

#[test]
fn collide_skips_malformed_pairs() {
    let (mut sim, a, _b) = two_villagers();
    let contacts = vec![(a, a), (a, 999), (999, 1000)];
    sim.collide_cards(&contacts);
    assert_eq!(sim.cards[a].stack_parent, None);
    assert_eq!(sim.cards[a].stack_child, None);
}

#[test]
fn slotted_cards_do_not_stack() {
    let mut sim = Simulation::new();
    let t = sim.spawn_tile(0, 0).unwrap();
    let v = sim.spawn_card(CardType::Villager, 0, 0);
    let w = sim.spawn_card(CardType::Villager, 500, 0);
    assert!(sim.try_slotting_card(t, v));
    // mutual exclusivity: neither onto a slotted card nor a slotted card
    // onto another
    assert!(!sim.attempt_stack(w, v));
    assert!(!sim.attempt_stack(v, w));
    assert_eq!(sim.cards[v].stack_child, None);
    assert_eq!(sim.cards[v].stack_parent, None);
}
