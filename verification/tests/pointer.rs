//! Selection, drag-and-drop, and the movement pass.

use cardstacks::card::CardType;
use cardstacks::sim::{HoverPoint, Simulation, SELECT_LIFT_Z};

#[test]
fn pointer_down_selects_and_unstacks() {
    let mut sim = Simulation::new();
    let a = sim.spawn_card(CardType::Villager, 500, 0);
    let b = sim.spawn_card(CardType::Villager, 0, 0);
    assert!(sim.attempt_stack(a, b));
    sim.pointer_down(Some(a));
    assert_eq!(sim.selected_card, Some(a));
    assert_eq!(sim.cards[a].stack_parent, None);
    assert_eq!(sim.cards[b].stack_child, None);
    assert!(sim.stack_roots.queued[b]);
}

#[test]
fn pointer_down_ignores_goblins_and_misses() {
    let mut sim = Simulation::new();
    let g = sim.spawn_card(CardType::Goblin, 0, 0);
    sim.pointer_down(Some(g));
    assert_eq!(sim.selected_card, None);
    sim.pointer_down(None);
    assert_eq!(sim.selected_card, None);
    sim.pointer_down(Some(42));
    assert_eq!(sim.selected_card, None);
}

#[test]
fn pointer_down_while_holding_is_a_noop() {
    let mut sim = Simulation::new();
    let a = sim.spawn_card(CardType::Villager, 0, 0);
    let b = sim.spawn_card(CardType::Villager, 500, 0);
    sim.pointer_down(Some(a));
    sim.pointer_down(Some(b));
    assert_eq!(sim.selected_card, Some(a));
}

#[test]
fn releasing_over_a_free_slot_slots_the_card() {
    let mut sim = Simulation::new();
    let t = sim.spawn_tile(0, 0).unwrap();
    let v = sim.spawn_card(CardType::Villager, 4000, 0);
    sim.pointer_down(Some(v));
    sim.set_hover(Some(HoverPoint { x: 100, y: 100 }));
    sim.hover_tile();
    assert_eq!(sim.hovered_tile, Some(t));
    sim.pointer_up();
    assert_eq!(sim.selected_card, None);
    assert_eq!(sim.tiles[t].slotted_villager, Some(v));
    assert_eq!(sim.cards[v].slotted_in_tile, Some(t));
}

#[test]
fn releasing_outside_the_footprint_does_not_slot() {
    let mut sim = Simulation::new();
    let t = sim.spawn_tile(0, 0).unwrap();
    let v = sim.spawn_card(CardType::Villager, 4000, 0);
    sim.pointer_down(Some(v));
    // still over the tile's cell, but outside the slot footprint
    sim.set_hover(Some(HoverPoint { x: 700, y: 0 }));
    sim.hover_tile();
    assert_eq!(sim.hovered_tile, Some(t));
    sim.pointer_up();
    assert_eq!(sim.tiles[t].slotted_villager, None);
    assert_eq!(sim.cards[v].slotted_in_tile, None);
}

#[test]
fn held_card_follows_the_pointer_lifted() {
    let mut sim = Simulation::new();
    let v = sim.spawn_card(CardType::Villager, 0, 0);
    sim.pointer_down(Some(v));
    sim.set_hover(Some(HoverPoint { x: 1234, y: -567 }));
    sim.move_cards();
    assert_eq!(sim.cards[v].x, 1234);
    assert_eq!(sim.cards[v].y, -567);
    assert_eq!(sim.cards[v].z, SELECT_LIFT_Z);
    // released: it settles back onto the board plane where it is
    sim.pointer_up();
    sim.move_cards();
    assert_eq!(sim.cards[v].x, 1234);
    assert_eq!(sim.cards[v].z, 0);
}

#[test]
fn slotted_card_snaps_to_its_tile() {
    let mut sim = Simulation::new();
    let t = sim.spawn_tile(1, -1).unwrap();
    let v = sim.spawn_card(CardType::Villager, 0, 0);
    assert!(sim.try_slotting_card(t, v));
    sim.move_cards();
    assert_eq!(sim.cards[v].x, 2950);
    assert_eq!(sim.cards[v].y, -2950);
    assert_eq!(sim.cards[v].z, 0);
}

#[test]
fn registered_stacks_cascade_below_their_root() {
    let mut sim = Simulation::new();
    let a = sim.spawn_card(CardType::Villager, 500, 0);
    let b = sim.spawn_card(CardType::Villager, 0, 0);
    let c = sim.spawn_card(CardType::Villager, -500, 0);
    assert!(sim.attempt_stack(a, b));
    assert!(sim.attempt_stack(c, b));
    // the drain registers the root; the next movement pass lays the pile out
    sim.evaluate_phase_a();
    sim.move_cards();
    assert_eq!(sim.cards[b].x, 0);
    assert_eq!(sim.cards[b].y, 0);
    assert_eq!(sim.cards[a].x, 0);
    assert_eq!(sim.cards[a].y, -300);
    assert_eq!(sim.cards[a].z, 10);
    assert_eq!(sim.cards[c].x, 0);
    assert_eq!(sim.cards[c].y, -600);
    assert_eq!(sim.cards[c].z, 20);
}
