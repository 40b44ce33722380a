//! A stack-graph and tile-slot coordination engine for an interactive
//! card/board simulation.
//!
//! Cards live in an arena and are connected by `stack_parent` / `stack_child`
//! links into singly linked stacks. The engine keeps that graph symmetric and
//! acyclic while the user picks cards up, drops them, and lets them collide;
//! a registry of stack roots and a deduplicated recomputation queue drive the
//! lazy reclassification of stacks (two villagers stacked together breed a
//! new villager after a timer), and a grid of tiles offers single-occupancy
//! production slots that are mutually exclusive with stacking.
//!
//! Rendering, physics, input and the rest of the host engine stay outside:
//! they hand the simulation plain values (contact pairs, a hover point, a
//! clicked card, elapsed milliseconds) and read plain values back.
//!
//! Corrupt graph states — a cycle, an asymmetric link pair, a card both
//! stacked and slotted, a leaked or shared timer — are not detected and
//! repaired at run time; they are ruled out by proof: every public operation
//! preserves [`sim::Simulation::wf`], and the laws in [`laws`] spell out
//! what that invariant guarantees.

pub mod animate;
pub mod card;
pub mod chain;
pub mod coord;
pub mod evaluate;
pub mod laws;
pub mod progress_bar;
pub mod select;
pub mod sim;
pub mod stack;
pub mod tile;
