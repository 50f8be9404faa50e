//! Conversation states: idling, making a sandwich for a customer, and
//! ordering one, with the score a finished order earns.

use vstd::prelude::*;

use crate::random::Entropy;
use crate::sandwich::{spec_names, Ingredient, Sandwich};

verus! {

/// Owned texts seen mathematically.
pub open spec fn spec_texts(s: Seq<String>) -> Seq<Seq<char>> {
    s.map_values(|x: String| x@)
}

/// The unit cost edit distance between two name lists, counting inserts,
/// deletes, substitutions, and transpositions.
pub uninterp spec fn align_distance(a: Seq<Seq<char>>, b: Seq<Seq<char>>) -> nat;

/// Relies on seqalign's Levenshtein-Damerau measure at unit costs:
/// `align` fills the cost matrix for the two sequences and `distance`
/// reads off the corner. Equal sequences cost zero along the match
/// diagonal, and every other edit operation costs one, so a zero distance
/// happens only on equal sequences.
#[verifier::external_body]
fn edit_distance(a: &Vec<String>, b: &Vec<String>) -> (r: usize)
    ensures
        r as nat == align_distance(spec_texts(a@), spec_texts(b@)),
        spec_texts(a@) == spec_texts(b@) ==> r == 0,
        r == 0 ==> spec_texts(a@) == spec_texts(b@),
{
    let measure = seqalign::measures::LevenshteinDamerau::new(1, 1, 1, 1);
    let alignment = seqalign::Align::align(&measure, &a[..], &b[..]);
    alignment.distance()
}

/// The names of a sandwich's ingredients, as owned text.
fn ingredient_names(v: &Vec<Ingredient>) -> (r: Vec<String>)
    ensures
        spec_texts(r@) == spec_names(v@),
{
    let mut out: Vec<String> = Vec::new();
    let mut i: usize = 0;
    proof {
        assert(spec_names(v@).len() == v@.len());
        assert(spec_texts(out@) =~~= spec_names(v@).take(0));
    }
    while i < v.len()
        invariant
            i <= v@.len(),
            spec_texts(out@) == spec_names(v@).take(i as int),
        decreases v@.len() - i,
    {
        let ghost before: Seq<String> = out@;
        out.push(v[i].name.clone());
        proof {
            assert(spec_texts(before).len() == before.len());
            assert(spec_names(v@).take(i as int).len() == i);
            assert forall|x: int|
                0 <= x < spec_texts(out@).len() implies #[trigger] spec_texts(out@)[x]
                == spec_names(v@).take(i + 1)[x] by {
                assert(spec_texts(out@)[x] == out@[x]@);
                if x < before.len() {
                    assert(out@[x] == before[x]);
                    assert(spec_texts(before)[x] == before[x]@);
                }
                assert(spec_names(v@)[x] == v@[x].name@);
            }
            assert(spec_texts(out@) =~~= spec_names(v@).take(i + 1));
        }
        i = i + 1;
    }
    proof {
        assert(spec_names(v@).take(v@.len() as int) =~~= spec_names(v@));
    }
    out
}

/// The resting state, between conversations.
#[derive(Debug)]
pub struct Idle;

/// Building a sandwich for a customer's order.
#[derive(Debug)]
pub struct MakingSandwich {
    pub sandwich: Sandwich,
}

impl MakingSandwich {
    /// An empty board to build on.
    pub fn new() -> (r: MakingSandwich)
        ensures
            r.sandwich.ingredients@.len() == 0,
            r.sandwich.ensured@.len() == 0,
            !r.sandwich.complete,
    {
        MakingSandwich { sandwich: Sandwich::new(Vec::new()) }
    }
}

/// Ordering a sandwich from another agent.
#[derive(Debug)]
pub struct OrderingSandwich {
    pub sandwich: Sandwich,
    pub next_index: usize,
    pub history: Vec<usize>,
}

impl OrderingSandwich {
    /// A fresh order around a small random sandwich. `None` when the
    /// taxonomy cannot produce one.
    pub fn new(all_ingredients: &Ingredient, rng: &mut Entropy) -> (r: Option<OrderingSandwich>)
        ensures
            match r {
                Some(o) => o.next_index == 0 && o.history@.len() == 0
                    && o.sandwich.ingredients@.len() >= 2,
                None => true,
            },
    {
        match Sandwich::random(all_ingredients, 5, rng) {
            Some(sandwich) => Some(
                OrderingSandwich { sandwich, next_index: 0, history: Vec::new() },
            ),
            None => None,
        }
    }

    /// How far the received sandwich strays from the wanted one: the edit
    /// distance between the two ingredient lists, zero for a perfect
    /// match. Lower is better.
    pub fn judge_sandwich(&self, result: &Sandwich) -> (r: usize)
        ensures
            r as nat == align_distance(
                spec_names(result.ingredients@),
                spec_names(self.sandwich.ingredients@),
            ),
            (r == 0) == (spec_names(result.ingredients@) == spec_names(
                self.sandwich.ingredients@,
            )),
    {
        let got: Vec<String> = ingredient_names(&result.ingredients);
        let wanted: Vec<String> = ingredient_names(&self.sandwich.ingredients);
        edit_distance(&got, &wanted)
    }
}

} // verus!
