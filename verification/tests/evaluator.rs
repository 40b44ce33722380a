//! Evaluator behaviour: classification, breeding, timers, idempotence.

use cardstacks::card::CardType;
use cardstacks::select::PointerInput;
use cardstacks::sim::{Simulation, StackType, BREED_DURATION_MS};

fn stacked_villagers() -> (Simulation, usize, usize) {
    let mut sim = Simulation::new();
    let a = sim.spawn_card(CardType::Villager, 500, 0);
    let b = sim.spawn_card(CardType::Villager, 0, 0);
    assert!(sim.attempt_stack(a, b));
    (sim, a, b)
}

fn breed_bar(sim: &Simulation, root: usize) -> usize {
    match sim.stack_roots.roots[root] {
        Some(StackType::Breed { progress_bar }) => progress_bar,
        other => panic!("expected a breeding root, found {:?}", other),
    }
}

#[test]
fn contact_to_breeding_scenario() {
    // two freestanding villagers; contact (a, b) with a the deeper card
    let mut sim = Simulation::new();
    let a = sim.spawn_card(CardType::Villager, 500, 0);
    let b = sim.spawn_card(CardType::Villager, 0, 0);
    sim.cards[a].z = 10;
    let contacts = vec![(a, b)];
    sim.collide_cards(&contacts);
    assert_eq!(sim.cards[a].stack_parent, Some(b));
    assert_eq!(sim.cards[b].stack_child, Some(a));
    assert!(sim.stack_roots.queued[b]);
    sim.evaluate_phase_a();
    assert!(matches!(sim.stack_roots.roots[b], Some(StackType::Breed { .. })));
    // past the breeding duration a third villager exists and the root is
    // pending again
    sim.evaluate_phase_b(BREED_DURATION_MS);
    assert_eq!(sim.cards.len(), 3);
    assert_eq!(sim.cards[2].info.card_type, CardType::Villager);
    assert_eq!(sim.stack_roots.roots[b], Some(StackType::Pending));
    assert!(sim.stack_roots.queued[b]);
    // the two originals are still stacked, so the next drain breeds again
    sim.evaluate_phase_a();
    assert!(matches!(sim.stack_roots.roots[b], Some(StackType::Breed { .. })));
}

#[test]
fn breeding_spawns_exactly_one_villager() {
    let (mut sim, _a, b) = stacked_villagers();
    sim.evaluate_phase_a();
    let bar = breed_bar(&sim, b);
    assert!(sim.bars[bar].alive);
    assert_eq!(sim.bars[bar].bar.total_ms, BREED_DURATION_MS);
    // just short of the duration nothing happens
    sim.evaluate_phase_b(BREED_DURATION_MS - 1);
    assert_eq!(sim.cards.len(), 2);
    assert_eq!(sim.bars[bar].bar.current_ms, BREED_DURATION_MS - 1);
    // the last millisecond completes it: exactly one new villager, beside
    // the root
    sim.evaluate_phase_b(1);
    assert_eq!(sim.cards.len(), 3);
    assert_eq!(sim.cards[2].info.card_type, CardType::Villager);
    assert_eq!(sim.cards[2].x, sim.cards[b].x + 1000);
    assert_eq!(sim.cards[2].y, sim.cards[b].y);
    assert!(!sim.bars[bar].alive);
}

#[test]
fn three_stack_classifies_as_nothing() {
    let (mut sim, a, b) = stacked_villagers();
    let c = sim.spawn_card(CardType::Villager, 0, 500);
    assert!(sim.attempt_stack(c, a));
    sim.evaluate_phase_a();
    assert_eq!(sim.stack_roots.roots[b], Some(StackType::Nothing));
}

#[test]
fn mixed_stack_classifies_as_nothing() {
    let mut sim = Simulation::new();
    let v = sim.spawn_card(CardType::Villager, 0, 0);
    let l = sim.spawn_card(CardType::Log, 500, 0);
    assert!(sim.attempt_stack(l, v));
    sim.evaluate_phase_a();
    assert_eq!(sim.stack_roots.roots[v], Some(StackType::Nothing));
}

#[test]
fn unstacking_mid_breed_despawns_the_timer() {
    let (mut sim, a, b) = stacked_villagers();
    sim.evaluate_phase_a();
    let bar = breed_bar(&sim, b);
    sim.evaluate_phase_b(1000);
    assert!(sim.bars[bar].alive);
    assert_eq!(sim.bars[bar].bar.current_ms, 1000);
    // breaking the pair cancels the countdown at the next drain
    sim.unstack(a);
    sim.evaluate_phase_a();
    assert_eq!(sim.stack_roots.roots[b], None);
    assert!(!sim.bars[bar].alive);
    assert_eq!(sim.bars.iter().filter(|e| e.alive).count(), 0);
}

#[test]
fn absorbing_a_breeding_root_cancels_its_timer() {
    let (mut sim, _a, b) = stacked_villagers();
    sim.evaluate_phase_a();
    let bar = breed_bar(&sim, b);
    // a third villager lands on top: the pair no longer breeds
    let c = sim.spawn_card(CardType::Villager, 0, 500);
    assert!(sim.attempt_stack(c, b));
    sim.evaluate_phase_a();
    assert!(!sim.bars[bar].alive);
    assert_eq!(sim.stack_roots.roots[b], Some(StackType::Nothing));
}

#[test]
fn stale_entry_is_cleaned_up() {
    // two breeding pairs merge: the absorbed root's entry disappears
    let mut sim = Simulation::new();
    let a = sim.spawn_card(CardType::Villager, 0, 0);
    let b = sim.spawn_card(CardType::Villager, 500, 0);
    let c = sim.spawn_card(CardType::Villager, 2000, 0);
    let d = sim.spawn_card(CardType::Villager, 2500, 0);
    assert!(sim.attempt_stack(b, a));
    assert!(sim.attempt_stack(d, c));
    sim.evaluate_phase_a();
    let bar_c = breed_bar(&sim, c);
    // the `c` pile lands on the `a` pile
    assert!(sim.attempt_stack(c, b));
    sim.evaluate_phase_a();
    assert_eq!(sim.stack_roots.roots[c], None);
    assert!(!sim.bars[bar_c].alive);
    assert_eq!(sim.stack_roots.roots[a], Some(StackType::Nothing));
    // registry consistency: every remaining key heads a non-trivial stack
    for k in 0..sim.cards.len() {
        let entry = sim.stack_roots.roots[k];
        let proper = sim.cards[k].stack_parent.is_none() && sim.cards[k].stack_child.is_some();
        assert_eq!(entry.is_some(), proper);
    }
}

#[test]
fn drain_with_empty_queue_changes_nothing() {
    let (mut sim, _a, b) = stacked_villagers();
    sim.evaluate_phase_a();
    let roots_before = sim.stack_roots.roots.clone();
    let queued_before = sim.stack_roots.queued.clone();
    let bars_before = sim.bars.len();
    let bar = breed_bar(&sim, b);
    let current_before = sim.bars[bar].bar.current_ms;
    sim.evaluate_phase_a();
    assert_eq!(sim.stack_roots.roots, roots_before);
    assert_eq!(sim.stack_roots.queued, queued_before);
    assert_eq!(sim.bars.len(), bars_before);
    assert_eq!(sim.bars[bar].bar.current_ms, current_before);
    assert_eq!(sim.cards.len(), 2);
}

#[test]
fn full_tick_breeds_over_time() {
    let mut sim = Simulation::new();
    let a = sim.spawn_card(CardType::Villager, 500, 0);
    let b = sim.spawn_card(CardType::Villager, 0, 0);
    sim.cards[a].z = 10;
    let idle = PointerInput { hover: None, pressed: false, clicked: None, released: false };
    let contacts = vec![(a, b)];
    sim.tick(&contacts, idle, 16);
    let none: Vec<(usize, usize)> = Vec::new();
    // breeding starts on the tick after stacking; run plenty of ticks
    for _ in 0..400 {
        sim.tick(&none, idle, 16);
    }
    assert_eq!(sim.cards.len(), 3);
    assert_eq!(sim.cards[2].info.card_type, CardType::Villager);
}
