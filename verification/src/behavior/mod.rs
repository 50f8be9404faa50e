//! Agent behavior: the operation algebra, per-agent personality state,
//! allergy severities, and the pluggable quirks that steer ingredient
//! choice.

pub mod allergy;
pub mod ops;
pub mod personality;

pub use allergy::{Allergy, Severity};
pub use ops::{Message, Operation, Order, Relative};
pub use personality::{Event, Language, Personality, Preference};

use vstd::prelude::*;

use crate::random::Entropy;
use crate::sandwich::Sandwich;

verus! {

/// A behavioral quirk that may redirect which ingredient gets picked next.
pub trait Behavior {
    /// Called once when a conversation starts.
    fn start(&self);

    /// Called once when a conversation ends.
    fn end(&self);

    /// May replace the picked ingredient index with another.
    fn next_ingredient(
        &mut self,
        sandwich: &Sandwich,
        pick: Option<usize>,
        rng: &mut Entropy,
    ) -> Option<usize>;
}

/// A forgetful streak: wanted ingredients are sometimes set aside for
/// later, and sometimes remembered again.
#[derive(Debug)]
pub struct Forgetful {
    /// How forgetful this agent is, per mille.
    pub degree: u32,
    /// The indices set aside, oldest first.
    pub forgotten: Vec<usize>,
}

impl Forgetful {
    /// A forgetful streak of the given strength.
    pub fn new(degree: u32) -> (r: Forgetful)
        ensures
            r.degree == degree,
            r.forgotten@.len() == 0,
    {
        Forgetful { degree, forgotten: Vec::new() }
    }
}

impl Behavior for Forgetful {
    fn start(&self) {
    }

    fn end(&self) {
    }

    /// Sometimes remembers the oldest ingredient set aside; sometimes sets
    /// the current pick aside and moves on to the next index; otherwise
    /// leaves the pick alone. Forgetting never invents a pick out of
    /// nothing.
    fn next_ingredient(
        &mut self,
        sandwich: &Sandwich,
        pick: Option<usize>,
        rng: &mut Entropy,
    ) -> (r: Option<usize>)
        ensures
            final(self).degree == old(self).degree,
            old(self).forgotten@.len() == 0 && pick is None ==> r == pick
                && final(self).forgotten@.len() == 0,
    {
        let curr_idx: usize = match pick {
            Some(x) => x,
            None => 0,
        };
        let recall_gate: u32 = self.degree / 2;
        if rng.chance(recall_gate) && self.forgotten.len() > 0 {
            let remembered: usize = self.forgotten.remove(0);
            return Some(remembered);
        }
        if pick.is_some() && sandwich.ingredients.len() > curr_idx && rng.chance(self.degree) {
            self.forgotten.push(curr_idx);
            if curr_idx + 1 < sandwich.ingredients.len() {
                return Some(curr_idx + 1);
            }
            return None;
        }
        pick
    }
}

} // verus!
