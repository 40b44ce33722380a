//! Easing curves for the embedding's render-side animations.

use vstd::prelude::*;

verus! {

/// Which easing curve an animation should follow. The engine only selects a
/// curve (picking up and dropping a card both use `Linear`); evaluating the
/// curve over real-valued time is interpolation work that belongs to the
/// rendering layer, which reads this selection back.
#[derive(Clone, Copy, PartialEq, Eq, Structural, Debug)]
pub enum Ease {
    Linear,
    InOutCirc,
    OutBack,
}

} // verus!
