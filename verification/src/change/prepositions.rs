//! A simple preposition for adding one ingredient after another, named
//! one.
//!
//! The shape of the exchange: a basic phrase asks for an ingredient
//! outright, and the modified phrase anchors it after another, as in
//! asking for cheese to go in right after the avocado.

use vstd::prelude::*;

verus! {

/// The planned add-after construct.
#[derive(Debug)]
pub struct AddAfter {}

} // verus!
