//! Tile slots: grid lookup, slotting, production, hover highlight.

use cardstacks::card::CardType;
use cardstacks::sim::{HoverPoint, Simulation};
use cardstacks::tile::{Tile, PRODUCTION_DURATION_MS};

fn board_with_villager() -> (Simulation, usize, usize) {
    let mut sim = Simulation::new();
    let t = sim.spawn_tile(0, 0).unwrap();
    let v = sim.spawn_card(CardType::Villager, 0, 0);
    (sim, t, v)
}

#[test]
fn grid_world_roundtrip() {
    assert_eq!(Tile::grid_to_translation(0, 0), (0, 0));
    assert_eq!(Tile::grid_to_translation(1, -1), (2950, -2950));
    assert_eq!(Tile::translation_to_grid(0, 0), (0, 0));
    assert_eq!(Tile::translation_to_grid(2950, -2950), (1, -1));
    // rounding to the nearest cell, halves away from zero
    assert_eq!(Tile::translation_to_grid(1475, -1475), (1, -1));
    assert_eq!(Tile::translation_to_grid(1474, -1474), (0, 0));
    for g in [-3i64, -1, 0, 2, 7] {
        let (wx, wy) = Tile::grid_to_translation(g, -g);
        assert_eq!(Tile::translation_to_grid(wx, wy), (g, -g));
    }
}

#[test]
fn spawn_tile_rejects_cells_off_the_board() {
    let mut sim = Simulation::new();
    assert_eq!(sim.spawn_tile(2_000_000_000_000, 0), None);
    assert_eq!(sim.spawn_tile(0, -2_000_000_000_000), None);
    assert_eq!(sim.tiles.len(), 0);
}

#[test]
fn slotting_rejects_the_held_card() {
    let mut sim = Simulation::new();
    let t = sim.spawn_tile(0, 0).unwrap();
    let v = sim.spawn_card(CardType::Villager, 0, 0);
    sim.pointer_down(Some(v));
    assert!(!sim.try_slotting_card(t, v));
    assert_eq!(sim.tiles[t].slotted_villager, None);
}

#[test]
fn spawn_tile_rejects_taken_cells() {
    let mut sim = Simulation::new();
    assert_eq!(sim.spawn_tile(2, 3), Some(0));
    assert_eq!(sim.spawn_tile(2, 3), None);
    assert_eq!(sim.spawn_tile(3, 2), Some(1));
    assert_eq!(sim.tile_at(2, 3), Some(0));
    assert_eq!(sim.tile_at(3, 2), Some(1));
    assert_eq!(sim.tile_at(0, 0), None);
}

#[test]
fn slotting_scenario_produces_a_log() {
    // slotting a villager into an unoccupied woods tile starts production
    let (mut sim, t, v) = board_with_villager();
    assert!(sim.try_slotting_card(t, v));
    assert_eq!(sim.tiles[t].slotted_villager, Some(v));
    assert_eq!(sim.cards[v].slotted_in_tile, Some(t));
    let bar = sim.tiles[t].progress_bar.unwrap();
    assert!(sim.bars[bar].alive);
    assert_eq!(sim.bars[bar].bar.total_ms, PRODUCTION_DURATION_MS);
    // just before the duration: nothing yet
    sim.evaluate_tiles(PRODUCTION_DURATION_MS - 1);
    assert_eq!(sim.cards.len(), 1);
    // completing it spawns exactly one log beside the tile and resets the
    // timer instead of removing it
    sim.evaluate_tiles(1);
    assert_eq!(sim.cards.len(), 2);
    assert_eq!(sim.cards[1].info.card_type, CardType::Log);
    assert_eq!(sim.cards[1].x, 950);
    assert_eq!(sim.cards[1].y, 0);
    assert!(sim.bars[bar].alive);
    assert_eq!(sim.bars[bar].bar.current_ms, 0);
    // production repeats indefinitely
    sim.evaluate_tiles(PRODUCTION_DURATION_MS);
    assert_eq!(sim.cards.len(), 3);
    assert_eq!(sim.cards[2].info.card_type, CardType::Log);
}

#[test]
fn slotting_rejects_occupied_tiles_and_non_villagers() {
    let (mut sim, t, v) = board_with_villager();
    let l = sim.spawn_card(CardType::Log, 500, 0);
    let w = sim.spawn_card(CardType::Villager, -500, 0);
    assert!(!sim.try_slotting_card(t, l));
    assert!(sim.try_slotting_card(t, v));
    assert!(!sim.try_slotting_card(t, w));
    assert_eq!(sim.tiles[t].slotted_villager, Some(v));
}

#[test]
fn unslotting_on_pickup_cancels_production() {
    let (mut sim, t, v) = board_with_villager();
    assert!(sim.try_slotting_card(t, v));
    let bar = sim.tiles[t].progress_bar.unwrap();
    sim.pointer_down(Some(v));
    assert_eq!(sim.selected_card, Some(v));
    assert_eq!(sim.tiles[t].slotted_villager, None);
    assert_eq!(sim.tiles[t].progress_bar, None);
    assert_eq!(sim.cards[v].slotted_in_tile, None);
    assert!(!sim.bars[bar].alive);
}

#[test]
fn hover_resolves_tile_under_pointer_while_holding() {
    let (mut sim, t, v) = board_with_villager();
    sim.pointer_down(Some(v));
    sim.set_hover(Some(HoverPoint { x: 100, y: -200 }));
    sim.hover_tile();
    assert_eq!(sim.hovered_tile, Some(t));
    // off the board: no tile
    sim.set_hover(Some(HoverPoint { x: 50_000, y: 0 }));
    sim.hover_tile();
    assert_eq!(sim.hovered_tile, None);
    // without a hover point the target clears too
    sim.set_hover(None);
    sim.hover_tile();
    assert_eq!(sim.hovered_tile, None);
}

#[test]
fn indicator_shows_for_candidates_and_occupants() {
    let (mut sim, t, v) = board_with_villager();
    let w = sim.spawn_card(CardType::Villager, 5000, 0);
    assert!(!sim.slot_indicator_visible(t));
    // transient: hovered while a card is held
    sim.pointer_down(Some(w));
    sim.set_hover(Some(HoverPoint { x: 0, y: 0 }));
    sim.hover_tile();
    assert!(sim.slot_indicator_visible(t));
    // release away from the slot: the candidate highlight goes away
    sim.set_hover(None);
    sim.pointer_up();
    sim.hover_tile();
    assert!(!sim.slot_indicator_visible(t));
    // permanent: an occupied tile shows its indicator with nothing held
    assert!(sim.try_slotting_card(t, v));
    assert_eq!(sim.tiles[t].slotted_villager, Some(v));
    assert!(sim.slot_indicator_visible(t));
}
