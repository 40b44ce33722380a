//! Small pieces: cards, timers, easing selection, contact orientation.

use cardstacks::animate::Ease;
use cardstacks::card::{Card, CardClass, CardType};
use cardstacks::progress_bar::ProgressBar;
use cardstacks::select::orient_contact;
use cardstacks::tile::in_slot_footprint;

#[test]
fn card_classes_and_stats() {
    assert_eq!(CardType::Villager.class(), CardClass::Villager);
    assert_eq!(CardType::Log.class(), CardClass::Resource);
    assert_eq!(CardType::Goblin.class(), CardClass::Enemy);
    let v = CardType::Villager.get_initial_stats();
    assert_eq!((v.health, v.max_health, v.damage), (3, 3, 1));
    let g = CardType::Goblin.get_initial_stats();
    assert_eq!((g.health, g.max_health, g.damage), (1, 1, 1));
    let l = CardType::Log.get_initial_stats();
    assert_eq!((l.health, l.max_health, l.damage), (0, 0, 0));
}

#[test]
fn card_predicates() {
    let v = Card::from_type(CardType::Villager);
    assert!(v.is_stackable());
    assert!(v.is_player_controlled());
    assert!(!v.in_stack());
    let g = Card::from_type(CardType::Goblin);
    assert!(!g.is_stackable());
    assert!(!g.is_player_controlled());
    let mut slotted = Card::from_type(CardType::Villager);
    slotted.slotted_in_tile = Some(0);
    assert!(!slotted.is_stackable());
    let mut stacked = Card::from_type(CardType::Villager);
    stacked.stack_parent = Some(1);
    assert!(stacked.in_stack());
}

#[test]
fn progress_bar_clamps_and_resets() {
    let mut bar = ProgressBar::new(2000);
    assert!(!bar.finished());
    bar.add(1999);
    assert!(!bar.finished());
    assert_eq!(bar.current_ms, 1999);
    bar.add(5000);
    assert!(bar.finished());
    assert_eq!(bar.current_ms, 2000);
    bar.reset();
    assert_eq!(bar.current_ms, 0);
    assert!(!bar.finished());
}

#[test]
fn contact_orientation_rules() {
    // deeper card on top
    assert_eq!(orient_contact(3, 7, 10, 2), (3, 7));
    assert_eq!(orient_contact(3, 7, 2, 10), (7, 3));
    // tie: lower id becomes the base
    assert_eq!(orient_contact(3, 7, 5, 5), (7, 3));
    assert_eq!(orient_contact(7, 3, 5, 5), (7, 3));
}

#[test]
fn slot_footprint_bounds_are_strict() {
    assert!(in_slot_footprint(0, 0, 0, 0));
    assert!(in_slot_footprint(0, 0, 499, -599));
    assert!(!in_slot_footprint(0, 0, 500, 0));
    assert!(!in_slot_footprint(0, 0, 0, 600));
    assert!(in_slot_footprint(1000, -1000, 1499, -1500));
}

#[test]
fn easing_selection_is_copyable_data() {
    let lift = Ease::Linear;
    let settle = lift;
    assert_eq!(settle, Ease::Linear);
    assert_ne!(Ease::InOutCirc, Ease::OutBack);
}
