//! Allergy severities and the allergic reactions they cause.

use vstd::prelude::*;

use crate::sandwich::{spec_in_tree, Ingredient};

verus! {

/// How strongly an agent reacts to an allergen.
#[derive(Clone, Copy, Debug)]
pub enum Severity {
    Minor,
    Mild,
    Severe,
    Fatal,
}

impl Severity {
    /// The per-mille chance that eating the allergen causes a reaction.
    pub fn reaction_chance(&self) -> (r: u32)
        ensures
            r == match *self {
                Severity::Minor => 200u32,
                Severity::Mild => 400u32,
                Severity::Severe => 600u32,
                Severity::Fatal => 1000u32,
            },
    {
        match self {
            Severity::Minor => 200,
            Severity::Mild => 400,
            Severity::Severe => 600,
            Severity::Fatal => 1000,
        }
    }
}

/// An allergy to an ingredient or to a whole category of them.
#[derive(Debug)]
pub struct Allergy {
    pub severity: Severity,
    pub ingredient: Ingredient,
}

impl Allergy {
    /// An allergy of the given severity to the given ingredient.
    pub fn new(severity: Severity, ingredient: Ingredient) -> (r: Allergy)
        ensures
            r.severity == severity,
            r.ingredient == ingredient,
    {
        Allergy { severity, ingredient }
    }

    /// Whether the ingredient falls under this allergy, itself or as a
    /// member of the allergen's category.
    pub fn is_allergic(&self, ingredient: &Ingredient) -> (r: bool)
        ensures
            r == spec_in_tree(self.ingredient, ingredient.name@),
    {
        self.ingredient.includes(ingredient)
    }
}

} // verus!
