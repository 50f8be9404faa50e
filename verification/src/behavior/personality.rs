//! Per-agent state: behavioral dispositions, grammar-skill weights, the
//! ingredient inventory, the meaning cloud, and the skill-learning updates.
//!
//! All dispositions and skill weights are per-mille probabilities in
//! `0 ..= SCALE`. Skills grow only through successful use, by a
//! diminishing-returns step that follows a fixed-point logarithm, and decay
//! slowly by a sixth of the same gain.

use vstd::prelude::*;

use crate::grammar::{
    text_matches, AnnotatedWord, AnnotatedWordModel, Dictionary, DictionaryEntry, EntryModel,
    Syllable, Word, WordFunction,
};
use crate::random::{Entropy, SCALE};
use crate::sandwich::{spec_leaves, Ingredient, Sandwich};


verus! {

/// A tally of the grammatical constructs one parse or encoding exercised.
#[derive(Debug)]
pub struct Language {
    pub adverbs: u32,
    pub adverb_side: u32,
    pub adposition: u32,
    pub conjunction: u32,
    pub numbers: u32,
}

/// The mathematical content of a construct tally.
pub ghost struct LanguageModel {
    pub adverbs: int,
    pub adverb_side: int,
    pub adposition: int,
    pub conjunction: int,
    pub numbers: int,
}

impl View for Language {
    type V = LanguageModel;

    open spec fn view(&self) -> LanguageModel {
        LanguageModel {
            adverbs: self.adverbs as int,
            adverb_side: self.adverb_side as int,
            adposition: self.adposition as int,
            conjunction: self.conjunction as int,
            numbers: self.numbers as int,
        }
    }
}

/// Saturating sum of two counts.
pub open spec fn spec_sat_add(a: int, b: int) -> int {
    if a + b > u32::MAX {
        u32::MAX as int
    } else {
        a + b
    }
}

/// The saturating sum of two tallies.
pub open spec fn spec_combine(a: LanguageModel, b: LanguageModel) -> LanguageModel {
    LanguageModel {
        adverbs: spec_sat_add(a.adverbs, b.adverbs),
        adverb_side: spec_sat_add(a.adverb_side, b.adverb_side),
        adposition: spec_sat_add(a.adposition, b.adposition),
        conjunction: spec_sat_add(a.conjunction, b.conjunction),
        numbers: spec_sat_add(a.numbers, b.numbers),
    }
}

/// Saturating addition on counts.
fn sat_add(a: u32, b: u32) -> (r: u32)
    ensures
        r == spec_sat_add(a as int, b as int),
{
    if a > u32::MAX - b {
        u32::MAX
    } else {
        a + b
    }
}

impl Default for Language {
    /// The empty tally.
    fn default() -> (r: Language)
        ensures
            r@ == spec_zero_language(),
    {
        Language { adverbs: 0, adverb_side: 0, adposition: 0, conjunction: 0, numbers: 0 }
    }
}

/// The empty tally.
pub open spec fn spec_zero_language() -> LanguageModel {
    LanguageModel { adverbs: 0, adverb_side: 0, adposition: 0, conjunction: 0, numbers: 0 }
}

impl Language {
    /// The field-wise saturating sum of two tallies.
    pub fn combine(self, rhs: Language) -> (r: Language)
        ensures
            r@ == spec_combine(self@, rhs@),
    {
        Language {
            adverbs: sat_add(self.adverbs, rhs.adverbs),
            adverb_side: sat_add(self.adverb_side, rhs.adverb_side),
            adposition: sat_add(self.adposition, rhs.adposition),
            conjunction: sat_add(self.conjunction, rhs.conjunction),
            numbers: sat_add(self.numbers, rhs.numbers),
        }
    }
}

/// A timed happening that raises everyone's stress while it lasts.
#[derive(Clone, Copy, Debug)]
pub enum Event {
    /// The lunch rush, from its starting time in milliseconds.
    LunchRush(u64),
}

impl Event {
    /// How long the event lasts, in milliseconds: the lunch rush lasts an
    /// hour.
    pub fn duration(&self) -> (r: u64)
        ensures
            r == 3600000,
    {
        match self {
            Event::LunchRush(_) => 3600000,
        }
    }

    /// The stress factor while the event runs, in percent of the calm state.
    pub fn stress(&self) -> (r: u32)
        ensures
            r == 200,
    {
        match self {
            Event::LunchRush(_) => 200,
        }
    }

    /// Whether the event has run its course by the given time.
    pub fn is_over(&self, now_ms: u64) -> (r: bool)
        ensures
            r == match *self {
                Event::LunchRush(started) => now_ms > started && now_ms - started > 3600000,
            },
    {
        match self {
            Event::LunchRush(started) => now_ms > *started && now_ms - *started > self.duration(),
        }
    }
}

/// A liking or an allergy: an ingredient with a per-mille severity.
#[derive(Debug)]
pub struct Preference {
    pub ingredient: Ingredient,
    pub severity: u32,
}

impl Clone for Preference {
    fn clone(&self) -> (r: Self)
        ensures
            r.ingredient.name@ == self.ingredient.name@,
            r.severity == self.severity,
    {
        Preference { ingredient: self.ingredient.clone(), severity: self.severity }
    }
}

/// The fixed-point gain of a skill weight: a per-mille approximation of
/// `10 ln h` for the weight `h` expressed as a percentage — rounded rungs
/// through two percent, then the threshold ladder `7 * floor(log2 h)`.
/// Zero at one percent and below, where the true logarithm would vanish or
/// turn negative.
pub open spec fn spec_boost(x: int) -> int {
    if x < 11 {
        0
    } else if x < 12 {
        1
    } else if x < 13 {
        2
    } else if x < 15 {
        3
    } else if x < 16 {
        4
    } else if x < 18 {
        5
    } else if x < 20 {
        6
    } else if x < 40 {
        7
    } else if x < 80 {
        14
    } else if x < 160 {
        21
    } else if x < 320 {
        28
    } else if x < 640 {
        35
    } else {
        42
    }
}

/// One successful use of a construct, taken `mult` times: the weight grows
/// by its gain per use, capped at the full weight.
pub open spec fn spec_upgraded(x: int, mult: int) -> int {
    if x + spec_boost(x) * mult > SCALE {
        SCALE as int
    } else {
        x + spec_boost(x) * mult
    }
}

/// One step of passive forgetting: the weight loses a sixth of its gain.
pub open spec fn spec_decayed(x: int) -> int {
    x - spec_boost(x) / 6
}

/// The fixed-point gain of a skill weight.
pub fn boost_of(x: u32) -> (r: u32)
    ensures
        r == spec_boost(x as int),
        r <= 42,
{
    if x < 11 {
        0
    } else if x < 12 {
        1
    } else if x < 13 {
        2
    } else if x < 15 {
        3
    } else if x < 16 {
        4
    } else if x < 18 {
        5
    } else if x < 20 {
        6
    } else if x < 40 {
        7
    } else if x < 80 {
        14
    } else if x < 160 {
        21
    } else if x < 320 {
        28
    } else if x < 640 {
        35
    } else {
        42
    }
}

/// The inventory seen mathematically: names with counts, first entry
/// winning.
pub open spec fn spec_inv_view(inv: Seq<(String, usize)>) -> Seq<(Seq<char>, int)> {
    inv.map_values(|p: (String, usize)| (p.0@, p.1 as int))
}

/// The stock of one ingredient: its first entry's count, or zero.
pub open spec fn spec_inv_count(inv: Seq<(Seq<char>, int)>, name: Seq<char>) -> int
    decreases inv.len(),
{
    if inv.len() == 0 {
        0
    } else if inv[0].0 == name {
        inv[0].1
    } else {
        spec_inv_count(inv.drop_first(), name)
    }
}

/// Using one ingredient: the first entry under its name loses one unit, if
/// it has any; an absent or empty entry leaves the inventory unchanged.
pub open spec fn spec_inv_dec(inv: Seq<(Seq<char>, int)>, name: Seq<char>) -> Seq<
    (Seq<char>, int),
>
    decreases inv.len(),
{
    if inv.len() == 0 {
        inv
    } else if inv[0].0 == name {
        if inv[0].1 > 0 {
            seq![(inv[0].0, inv[0].1 - 1)] + inv.drop_first()
        } else {
            inv
        }
    } else {
        seq![inv[0]] + spec_inv_dec(inv.drop_first(), name)
    }
}

/// The total stock over all entries.
pub open spec fn spec_inv_total(inv: Seq<(Seq<char>, int)>) -> int
    decreases inv.len(),
{
    if inv.len() == 0 {
        0
    } else {
        inv[0].1 + spec_inv_total(inv.drop_first())
    }
}

/// The default stock per leaf ingredient.
pub open spec fn spec_default_inv(i: Ingredient) -> Seq<(Seq<char>, int)> {
    spec_leaves(i).map_values(|p: (Seq<char>, Seq<Syllable>)| (p.0, 20int))
}

/// A weighted meaning list seen mathematically.
pub open spec fn spec_weights_view(ws: Seq<(DictionaryEntry, u32)>) -> Seq<(EntryModel, u32)> {
    ws.map_values(|p: (DictionaryEntry, u32)| (p.0@, p.1))
}

/// The meaning cloud seen mathematically: words with their weighted
/// candidate meanings.
pub open spec fn spec_cloud_view(c: Seq<(Word, Vec<(DictionaryEntry, u32)>)>) -> Seq<
    (Seq<Syllable>, Seq<(EntryModel, u32)>),
> {
    c.map_values(|p: (Word, Vec<(DictionaryEntry, u32)>)| (p.0@, spec_weights_view(p.1@)))
}

/// The starting distribution for an unseen word: every dictionary entry,
/// each with weight one.
pub open spec fn spec_default_weights(es: Seq<(Seq<Syllable>, EntryModel)>) -> Seq<
    (EntryModel, u32),
> {
    es.map_values(|p: (Seq<Syllable>, EntryModel)| (p.1, 1u32))
}

/// The index of the first cloud entry for a word.
pub open spec fn spec_cloud_find(
    c: Seq<(Seq<Syllable>, Seq<(EntryModel, u32)>)>,
    w: Seq<Syllable>,
) -> Option<int>
    decreases c.len(),
{
    if c.len() == 0 {
        None
    } else if c[0].0 == w {
        Some(0)
    } else {
        match spec_cloud_find(c.drop_first(), w) {
            Some(i) => Some(i + 1),
            None => None,
        }
    }
}

/// The meaning distribution of a word: its stored cloud entry, or the
/// default distribution when the word is new.
pub open spec fn spec_cloud_get(
    c: Seq<(Seq<Syllable>, Seq<(EntryModel, u32)>)>,
    es: Seq<(Seq<Syllable>, EntryModel)>,
    w: Seq<Syllable>,
) -> Seq<(EntryModel, u32)> {
    match spec_cloud_find(c, w) {
        Some(i) => c[i].1,
        None => spec_default_weights(es),
    }
}

/// Reinforcing one reading: the first candidate with the given category
/// gains one unit of weight.
pub open spec fn spec_bump(ws: Seq<(EntryModel, u32)>, f: WordFunction) -> Seq<(EntryModel, u32)>
    decreases ws.len(),
{
    if ws.len() == 0 {
        ws
    } else if ws[0].0.function == f {
        seq![(ws[0].0, spec_sat_add(ws[0].1 as int, 1) as u32)] + ws.drop_first()
    } else {
        seq![ws[0]] + spec_bump(ws.drop_first(), f)
    }
}

/// Reinforcing a word's reading in the cloud: its stored distribution is
/// bumped in place; an unseen word enters the cloud with its default
/// distribution bumped.
pub open spec fn spec_improve(
    c: Seq<(Seq<Syllable>, Seq<(EntryModel, u32)>)>,
    es: Seq<(Seq<Syllable>, EntryModel)>,
    w: Seq<Syllable>,
    f: WordFunction,
) -> Seq<(Seq<Syllable>, Seq<(EntryModel, u32)>)> {
    match spec_cloud_find(c, w) {
        Some(i) => c.update(i, (w, spec_bump(c[i].1, f))),
        None => c.push((w, spec_bump(spec_default_weights(es), f))),
    }
}

/// The stress factor an event level implies, in percent of the calm state.
pub open spec fn spec_stress(e: Option<Event>) -> int {
    match e {
        Some(_) => 200,
        None => 100,
    }
}

/// Preferences seen mathematically: ingredient names with severities.
pub open spec fn spec_prefs_view(s: Seq<Preference>) -> Seq<(Seq<char>, int)> {
    s.map_values(|p: Preference| (p.ingredient.name@, p.severity as int))
}

/// An agent's state: dispositions, tastes, grammar skills, stock, memory,
/// and its word-meaning cloud. Every disposition and skill weight is a
/// per-mille probability.
#[derive(Debug)]
pub struct Personality {
    /// Likeliness to make mistakes building an order.
    pub laziness: u32,
    /// How likely the agent is to skip over a wanted ingredient.
    pub forgetfulness: u32,
    /// Likeliness to use polite modifiers and to wait longer.
    pub politeness: u32,
    /// Reluctance to correct mistakes or bring up dietary preferences.
    pub shyness: u32,
    /// Rises with mistreatment; high spite flips incoming orders.
    pub spite: u32,
    /// Likeliness to request several operations at once.
    pub planned: u32,
    /// Likeliness to change desires mid-negotiation.
    pub spontaneity: u32,
    /// How much the agent cares about ingredient order.
    pub order_sensitivity: u32,
    pub allergies: Vec<Preference>,
    pub preferences: Vec<Preference>,
    /// Grammar-skill weights, gating each construct.
    pub adverbs: u32,
    pub adverb_side: u32,
    pub adposition: u32,
    pub conjunction: u32,
    pub numbers: u32,
    /// Ingredient names with their stock counts.
    pub inventory: Vec<(String, usize)>,
    /// The last sandwiches eaten, newest first, at most ten.
    pub history: Vec<Sandwich>,
    /// Word-meaning weights for emergent vocabulary acquisition.
    pub cloud: Vec<(Word, Vec<(DictionaryEntry, u32)>)>,
    /// The running stress event, if any.
    pub event: Option<Event>,
    pub dictionary: Dictionary,
    /// The annotation of the last phrase handled, for reinforcement.
    pub last_lex: Option<Vec<AnnotatedWord>>,
}

impl Personality {
    /// A fresh agent over the given lexicon: calm dispositions, weak
    /// grammar skills, one random allergy and one random favorite, and a
    /// full default inventory.
    pub fn new(dictionary: Dictionary, rng: &mut Entropy) -> (r: Personality)
        ensures
            r.laziness == 500 && r.forgetfulness == 100 && r.politeness == 300 && r.shyness == 100
                && r.spite == 0 && r.planned == 800 && r.spontaneity == 100
                && r.order_sensitivity == 1000,
            r.adverbs == 100 && r.adverb_side == 950 && r.adposition == 100 && r.conjunction
                == 100 && r.numbers == 100,
            r.allergies@.len() <= 1 && r.preferences@.len() <= 1,
            forall|k: int| 0 <= k < r.allergies@.len() ==> (#[trigger] r.allergies@[k]).severity == 600,
            forall|k: int|
                0 <= k < r.preferences@.len() ==> (#[trigger] r.preferences@[k]).severity == 800,
            spec_inv_view(r.inventory@) == spec_default_inv(dictionary.ingredients),
            r.history@.len() == 0 && r.cloud@.len() == 0 && r.event is None && r.last_lex is None,
            r.dictionary == dictionary,
    {
        let mut allergies: Vec<Preference> = Vec::new();
        match dictionary.ingredients.random(rng) {
            Some(i) => allergies.push(Preference { severity: 600, ingredient: i }),
            None => {},
        }
        let mut preferences: Vec<Preference> = Vec::new();
        match dictionary.ingredients.random(rng) {
            Some(i) => preferences.push(Preference { severity: 800, ingredient: i }),
            None => {},
        }
        let inventory: Vec<(String, usize)> = Personality::default_inventory(&dictionary);
        Personality {
            laziness: 500,
            forgetfulness: 100,
            politeness: 300,
            shyness: 100,
            spite: 0,
            planned: 800,
            spontaneity: 100,
            order_sensitivity: 1000,
            allergies,
            preferences,
            adverbs: 100,
            adverb_side: 950,
            adposition: 100,
            conjunction: 100,
            numbers: 100,
            inventory,
            history: Vec::new(),
            cloud: Vec::new(),
            event: None,
            dictionary,
            last_lex: None,
        }
    }

    /// The default inventory: twenty units of every leaf ingredient.
    fn default_inventory(dict: &Dictionary) -> (r: Vec<(String, usize)>)
        ensures
            spec_inv_view(r@) == spec_default_inv(dict.ingredients),
    {
        let lv: Vec<(String, Word)> = dict.ingredients.leaves();
        let ghost lvv: Seq<(Seq<char>, Seq<Syllable>)> = spec_leaves(dict.ingredients);
        let mut out: Vec<(String, usize)> = Vec::new();
        let mut j: usize = 0;
        proof {
            assert(spec_default_inv(dict.ingredients).len() == lvv.len());
            assert(crate::sandwich::spec_pairs_view(lv@).len() == lv@.len());
            assert(spec_inv_view(out@) =~~= spec_default_inv(dict.ingredients).take(0));
        }
        while j < lv.len()
            invariant
                j <= lv@.len(),
                lvv == crate::sandwich::spec_pairs_view(lv@),
                lvv == spec_leaves(dict.ingredients),
                lv@.len() == lvv.len(),
                spec_inv_view(out@) == spec_default_inv(dict.ingredients).take(j as int),
            decreases lv@.len() - j,
        {
            let nm: String = lv[j].0.clone();
            let ghost before: Seq<(String, usize)> = out@;
            out.push((nm, 20));
            proof {
                let target = spec_default_inv(dict.ingredients);
                assert(spec_inv_view(before).len() == before.len());
                assert(target.take(j as int).len() == j);
                assert(lvv[j as int] == (lv@[j as int].0@, lv@[j as int].1@));
                assert(target[j as int] == (lvv[j as int].0, 20int));
                assert forall|x: int| 0 <= x < spec_inv_view(out@).len() implies spec_inv_view(
                    out@,
                )[x] == target.take(j + 1)[x] by {
                    assert(spec_inv_view(out@)[x] == (out@[x].0@, out@[x].1 as int));
                    if x < before.len() {
                        assert(out@[x] == before[x]);
                        assert(spec_inv_view(before)[x] == (before[x].0@, before[x].1 as int));
                    }
                }
                assert(spec_inv_view(out@) =~~= target.take(j + 1));
            }
            j = j + 1;
        }
        proof {
            assert(spec_default_inv(dict.ingredients).take(lvv.len() as int)
                =~~= spec_default_inv(dict.ingredients));
        }
        out
    }

    /// The current stress factor, in percent of the calm state.
    pub fn stress(&self) -> (r: u32)
        ensures
            r == spec_stress(self.event),
    {
        match &self.event {
            Some(e) => e.stress(),
            None => 100,
        }
    }

    /// Restocks the inventory to its default.
    pub fn reset_inventory(&mut self)
        ensures
            spec_inv_view(final(self).inventory@) == spec_default_inv(
                old(self).dictionary.ingredients,
            ),
            *final(self) == (Personality { inventory: final(self).inventory, ..*old(self) }),
    {
        self.inventory = Personality::default_inventory(&self.dictionary);
    }

    /// The total stock over all ingredients, saturating at the machine
    /// limit.
    pub fn total_inventory_count(&self) -> (r: usize)
        ensures
            spec_inv_total(spec_inv_view(self.inventory@)) <= usize::MAX ==> r == spec_inv_total(
                spec_inv_view(self.inventory@),
            ),
            r <= spec_inv_total(spec_inv_view(self.inventory@)),
    {
        let ghost iv: Seq<(Seq<char>, int)> = spec_inv_view(self.inventory@);
        let mut total: usize = 0;
        let mut i: usize = 0;
        proof {
            assert(iv.skip(0) =~~= iv);
        }
        while i < self.inventory.len()
            invariant
                i <= self.inventory@.len(),
                iv == spec_inv_view(self.inventory@),
                iv.len() == self.inventory@.len(),
                total <= spec_inv_total(iv) - spec_inv_total(iv.skip(i as int)),
                spec_inv_total(iv) - spec_inv_total(iv.skip(i as int)) <= usize::MAX ==> total
                    == spec_inv_total(iv) - spec_inv_total(iv.skip(i as int)),
            decreases self.inventory@.len() - i,
        {
            proof {
                assert(iv.skip(i as int)[0] == iv[i as int]);
                assert(iv.skip(i as int).drop_first() =~~= iv.skip(i + 1));
                assert(iv[i as int].1 == self.inventory@[i as int].1 as int);
            }
            let c: usize = self.inventory[i].1;
            if total > usize::MAX - c {
                total = usize::MAX;
            } else {
                total = total + c;
            }
            i = i + 1;
        }
        proof {
            assert(iv.skip(iv.len() as int) =~~= Seq::<(Seq<char>, int)>::empty());
        }
        total
    }

    /// Whether any stock of the ingredient remains.
    pub fn has_ingredient(&self, desired: &Ingredient) -> (r: bool)
        ensures
            r == (spec_inv_count(spec_inv_view(self.inventory@), desired.name@) > 0),
    {
        let ghost iv: Seq<(Seq<char>, int)> = spec_inv_view(self.inventory@);
        let mut i: usize = 0;
        proof {
            assert(iv.skip(0) =~~= iv);
        }
        while i < self.inventory.len()
            invariant
                i <= self.inventory@.len(),
                iv == spec_inv_view(self.inventory@),
                iv.len() == self.inventory@.len(),
                spec_inv_count(iv, desired.name@) == spec_inv_count(
                    iv.skip(i as int),
                    desired.name@,
                ),
            decreases self.inventory@.len() - i,
        {
            proof {
                assert(iv.skip(i as int)[0] == iv[i as int]);
                assert(iv.skip(i as int).drop_first() =~~= iv.skip(i + 1));
            }
            if text_matches(&self.inventory[i].0, desired.name.as_str()) {
                return self.inventory[i].1 > 0;
            }
            i = i + 1;
        }
        false
    }

    /// Uses one unit of the ingredient's stock, when any remains.
    pub fn use_ingredient(&mut self, used: &Ingredient)
        ensures
            spec_inv_view(final(self).inventory@) == spec_inv_dec(
                spec_inv_view(old(self).inventory@),
                used.name@,
            ),
            *final(self) == (Personality { inventory: final(self).inventory, ..*old(self) }),
    {
        let ghost iv: Seq<(Seq<char>, int)> = spec_inv_view(self.inventory@);
        let mut i: usize = 0;
        proof {
            assert(iv.skip(0) =~~= iv);
            assert(iv.take(0) =~~= Seq::<(Seq<char>, int)>::empty());
        }
        while i < self.inventory.len()
            invariant
                i <= self.inventory@.len(),
                iv == spec_inv_view(self.inventory@),
                iv == spec_inv_view(old(self).inventory@),
                *self == (Personality { inventory: self.inventory, ..*old(self) }),
                iv.len() == self.inventory@.len(),
                forall|k: int| 0 <= k < i ==> iv[k].0 != used.name@,
                spec_inv_dec(iv, used.name@) == iv.take(i as int) + spec_inv_dec(
                    iv.skip(i as int),
                    used.name@,
                ),
            decreases self.inventory@.len() - i,
        {
            proof {
                assert(iv.skip(i as int)[0] == iv[i as int]);
                assert(iv.skip(i as int).drop_first() =~~= iv.skip(i + 1));
            }
            if text_matches(&self.inventory[i].0, used.name.as_str()) {
                let c: usize = self.inventory[i].1;
                if c > 0 {
                    let nm: String = self.inventory[i].0.clone();
                    let ghost before: Seq<(String, usize)> = self.inventory@;
                    self.inventory.set(i, (nm, c - 1));
                    proof {
                        assert(spec_inv_dec(iv.skip(i as int), used.name@) =~~= seq![
                            (iv[i as int].0, iv[i as int].1 - 1),
                        ] + iv.skip(i + 1));
                        assert forall|x: int|
                            0 <= x < spec_inv_view(self.inventory@).len() implies spec_inv_view(
                            self.inventory@,
                        )[x] == spec_inv_dec(iv, used.name@)[x] by {
                            assert(spec_inv_view(self.inventory@)[x] == (
                                self.inventory@[x].0@,
                                self.inventory@[x].1 as int,
                            ));
                            if x != i {
                                assert(self.inventory@[x] == before[x]);
                                assert(spec_inv_view(before)[x] == (
                                    before[x].0@,
                                    before[x].1 as int,
                                ));
                            }
                        }
                        assert(spec_inv_view(self.inventory@) =~~= spec_inv_dec(iv, used.name@));
                    }
                } else {
                    proof {
                        assert(spec_inv_dec(iv.skip(i as int), used.name@) =~~= iv.skip(i as int));
                        assert(iv.take(i as int) + iv.skip(i as int) =~~= iv);
                    }
                }
                return ;
            }
            proof {
                assert(spec_inv_dec(iv.skip(i as int), used.name@) =~~= seq![iv[i as int]]
                    + spec_inv_dec(iv.skip(i + 1), used.name@));
                assert(iv.take(i as int) + (seq![iv[i as int]] + spec_inv_dec(
                    iv.skip(i + 1),
                    used.name@,
                )) =~~= iv.take(i + 1) + spec_inv_dec(iv.skip(i + 1), used.name@));
            }
            i = i + 1;
        }
        proof {
            assert(spec_inv_dec(iv.skip(iv.len() as int), used.name@) =~~= Seq::<
                (Seq<char>, int),
            >::empty());
            assert(iv.take(iv.len() as int) + Seq::<(Seq<char>, int)>::empty() =~~= iv);
        }
    }

    /// The meaning distribution of a word: its stored cloud entry, or every
    /// dictionary entry at equal weight for a word seen for the first time.
    pub fn get_cloud_entry(&self, key: &Word) -> (r: Vec<(DictionaryEntry, u32)>)
        ensures
            spec_weights_view(r@) == spec_cloud_get(
                spec_cloud_view(self.cloud@),
                self.dictionary.spec_entries(),
                key@,
            ),
    {
        let ghost cv: Seq<(Seq<Syllable>, Seq<(EntryModel, u32)>)> = spec_cloud_view(self.cloud@);
        let mut i: usize = 0;
        proof {
            assert(cv.len() == self.cloud@.len());
        }
        while i < self.cloud.len()
            invariant
                i <= self.cloud@.len(),
                cv == spec_cloud_view(self.cloud@),
                cv.len() == self.cloud@.len(),
                forall|k: int| 0 <= k < i ==> (#[trigger] cv[k]).0 != key@,
            decreases self.cloud@.len() - i,
        {
            proof {
                assert(cv[i as int] == (self.cloud@[i as int].0@, spec_weights_view(
                    self.cloud@[i as int].1@,
                )));
            }
            if self.cloud[i].0.same(key) {
                let stored: &Vec<(DictionaryEntry, u32)> = &self.cloud[i].1;
                let out: Vec<(DictionaryEntry, u32)> = clone_weights(stored);
                proof {
                    assert(cv[i as int] == (self.cloud@[i as int].0@, spec_weights_view(
                        self.cloud@[i as int].1@,
                    )));
                    lemma_cloud_find_here(cv, key@, i as int);
                }
                return out;
            }
            i = i + 1;
        }
        proof {
            lemma_cloud_find_none(cv, key@);
        }
        let mut out: Vec<(DictionaryEntry, u32)> = Vec::new();
        let mut j: usize = 0;
        let ghost es: Seq<(Seq<Syllable>, EntryModel)> = self.dictionary.spec_entries();
        proof {
            assert(spec_weights_view(out@) =~~= spec_default_weights(es).take(0));
            assert(spec_default_weights(es).len() == es.len());
            assert(es.len() == self.dictionary.words@.len());
        }
        while j < self.dictionary.words.len()
            invariant
                j <= self.dictionary.words@.len(),
                es == self.dictionary.spec_entries(),
                es.len() == self.dictionary.words@.len(),
                spec_weights_view(out@) == spec_default_weights(es).take(j as int),
            decreases self.dictionary.words@.len() - j,
        {
            let e: DictionaryEntry = self.dictionary.words[j].1.clone();
            let ghost before: Seq<(DictionaryEntry, u32)> = out@;
            out.push((e, 1));
            proof {
                let target = spec_default_weights(es);
                assert(spec_weights_view(before).len() == before.len());
                assert(target.take(j as int).len() == j);
                assert(es[j as int] == (
                    self.dictionary.words@[j as int].0@,
                    self.dictionary.words@[j as int].1@,
                ));
                assert(target[j as int] == (es[j as int].1, 1u32));
                assert forall|x: int| 0 <= x < spec_weights_view(out@).len() implies
                    spec_weights_view(out@)[x] == target.take(j + 1)[x] by {
                    assert(spec_weights_view(out@)[x] == (out@[x].0@, out@[x].1));
                    if x < before.len() {
                        assert(out@[x] == before[x]);
                        assert(spec_weights_view(before)[x] == (before[x].0@, before[x].1));
                    }
                }
                assert(spec_weights_view(out@) =~~= target.take(j + 1));
            }
            j = j + 1;
        }
        proof {
            assert(spec_default_weights(es).take(es.len() as int) =~~= spec_default_weights(es));
        }
        out
    }

    /// A sandwich this agent would like: a base pair around a varied
    /// number of fillings — the drawn fill budget, between half and twice
    /// the requested size, is spent exactly — favorites first by severity,
    /// the rest random
    /// free leaves with a coin-flip keeping about half the repeats.
    /// `None` when the taxonomy lacks a usable base or, needing fillings,
    /// any free leaf; only fills past a single ingredient may also come up
    /// short on draws.
    pub fn gen_sandwich(&self, len: usize, rng: &mut Entropy) -> (r: Option<Sandwich>)
        requires
            1 <= len <= 100000000,
        ensures
            match r {
                Some(s) => s.ingredients@.len() >= 2 && len / 2 + 2 <= s.ingredients@.len() <= 2
                    * len + 1 && s.complete && s.ensured@.len() == 0
                    && crate::sandwich::spec_is_base_pair(
                    self.dictionary.ingredients,
                    s.ingredients@[0].name@,
                    s.ingredients@.last().name@,
                ) && forall|x: int|
                    1 <= x < s.ingredients@.len() - 1 ==> crate::sandwich::spec_free_leaf_names(
                        self.dictionary.ingredients,
                    ).contains((#[trigger] s.ingredients@[x]).name@) || (exists|j: int|
                        0 <= j < self.preferences@.len()
                            && (#[trigger] self.preferences@[j]).ingredient.name@
                            == s.ingredients@[x].name@),
                None => ({
                    let cs = crate::sandwich::spec_children(self.dictionary.ingredients);
                    let b = crate::sandwich::spec_first_base(cs, 0);
                    b == cs.len() || crate::sandwich::spec_children(cs[b]).len() == 0 || (exists|
                        k: int,
                    |
                        0 <= k < crate::sandwich::spec_children(cs[b]).len()
                            && crate::sandwich::spec_children(
                            #[trigger] crate::sandwich::spec_children(cs[b])[k],
                        ).len() < 2) || crate::sandwich::spec_free_leaf_names(
                        self.dictionary.ingredients,
                    ).len() == 0 || len > 1
                }),
            },
    {
        let (bottom, top) = match Ingredient::random_base(&self.dictionary.ingredients, rng) {
            Some(pair) => pair,
            None => {
                return None;
            },
        };
        let span: u32 = (2 * len - len / 2) as u32;
        let mut budget_left: usize = len / 2 + rng.below(span) as usize;
        let ghost fill_target: int = budget_left as int;
        let ghost bot_name: Seq<char> = bottom.name@;
        let mut ingredients: Vec<Ingredient> = Vec::new();
        ingredients.push(bottom);
        let stress: u32 = self.stress();
        let mut f: usize = 0;
        while f < self.preferences.len()
            invariant
                f <= self.preferences@.len(),
                stress <= 200,
                len <= 1 ==> budget_left <= 1,
                len / 2 <= fill_target < 2 * len,
                budget_left <= fill_target,
                ingredients@.len() == 1 + fill_target - budget_left,
                ingredients@[0].name@ == bot_name,
                crate::sandwich::spec_is_base_pair(
                    self.dictionary.ingredients,
                    bot_name,
                    top.name@,
                ),
                forall|x: int|
                    1 <= x < ingredients@.len() ==> exists|j: int|
                        0 <= j < self.preferences@.len()
                            && (#[trigger] self.preferences@[j]).ingredient.name@
                            == (#[trigger] ingredients@[x]).name@,
            decreases self.preferences@.len() - f,
        {
            let sev: u32 = self.preferences[f].severity;
            proof {
                assert(sev as u64 * stress as u64 <= 0xffff_ffffu64 * 200) by (nonlinear_arith)
                    requires
                        sev <= 0xffff_ffffu32,
                        stress <= 200,
                ;
            }
            let wide: u64 = sev as u64 * stress as u64 / 100;
            let gate: u32 = if wide > 900 {
                900
            } else {
                wide as u32
            };
            if budget_left > 0 && rng.chance(gate) {
                let copy: Ingredient = self.preferences[f].ingredient.clone();
                ingredients.push(copy);
                budget_left = budget_left - 1;
                proof {
                    assert(ingredients@.last().name@
                        == self.preferences@[f as int].ingredient.name@);
                }
            }
            f = f + 1;
        }
        let ghost fav_count: int = ingredients@.len() as int;
        let mut seen: Vec<(String, bool)> = Vec::new();
        let mut tries: usize = 0;
        let cap: usize = if budget_left > (usize::MAX - 16) / 16 {
            usize::MAX
        } else {
            16 * budget_left + 16
        };
        while budget_left > 0 && tries < cap
            invariant
                tries <= cap,
                len <= 1 ==> budget_left <= 1,
                len <= 1 ==> tries == 0 || budget_left == 0,
                tries == 0 ==> seen@.len() == 0,
                len / 2 <= fill_target < 2 * len,
                budget_left <= fill_target,
                ingredients@.len() == 1 + fill_target - budget_left,
                ingredients@[0].name@ == bot_name,
                crate::sandwich::spec_is_base_pair(
                    self.dictionary.ingredients,
                    bot_name,
                    top.name@,
                ),
                forall|x: int|
                    1 <= x < ingredients@.len() ==> crate::sandwich::spec_free_leaf_names(
                        self.dictionary.ingredients,
                    ).contains((#[trigger] ingredients@[x]).name@) || (exists|j: int|
                        0 <= j < self.preferences@.len()
                            && (#[trigger] self.preferences@[j]).ingredient.name@
                            == ingredients@[x].name@),
            decreases cap - tries,
        {
            tries = tries + 1;
            let leaf: Ingredient = match Ingredient::random(&self.dictionary.ingredients, rng) {
                Some(leaf) => leaf,
                None => {
                    return None;
                },
            };
            let flip: bool = rng.chance(300);
            let mut fresh: bool = true;
            let mut j: usize = 0;
            while j < seen.len()
                invariant
                    j <= seen@.len(),
                    seen@.len() == 0 ==> fresh,
                decreases seen@.len() - j,
            {
                let known: bool = text_matches(&seen[j].0, leaf.name.as_str());
                if known && seen[j].1 == flip {
                    fresh = false;
                }
                j = j + 1;
            }
            if fresh {
                seen.push((leaf.name.clone(), flip));
                ingredients.push(leaf);
                budget_left = budget_left - 1;
            }
        }
        if budget_left > 0 {
            return None;
        }
        ingredients.push(top);
        Some(
            Sandwich {
                ingredients,
                ensured: Vec::new(),
                complete: true,
                background_color: "#00000000".to_owned(),
            },
        )
    }

    /// Whether eating the ingredient triggers an allergic reaction: each
    /// allergy covering it rolls its severity once. A reaction happens only
    /// under an allergy that covers the ingredient with positive severity,
    /// and a covering allergy at full severity always reacts.
    pub fn allergic_reaction(&self, ingredient: &Ingredient, rng: &mut Entropy) -> (r: bool)
        ensures
            self.allergies@.len() == 0 ==> !r,
            r ==> exists|j: int|
                0 <= j < self.allergies@.len() && crate::sandwich::spec_in_tree(
                    (#[trigger] self.allergies@[j]).ingredient,
                    ingredient.name@,
                ) && self.allergies@[j].severity > 0,
            (exists|j: int|
                0 <= j < self.allergies@.len() && crate::sandwich::spec_in_tree(
                    (#[trigger] self.allergies@[j]).ingredient,
                    ingredient.name@,
                ) && self.allergies@[j].severity >= SCALE) ==> r,
    {
        let mut i: usize = 0;
        let mut reacted: bool = false;
        while i < self.allergies.len()
            invariant
                i <= self.allergies@.len(),
                reacted ==> exists|j: int|
                    0 <= j < self.allergies@.len() && crate::sandwich::spec_in_tree(
                        (#[trigger] self.allergies@[j]).ingredient,
                        ingredient.name@,
                    ) && self.allergies@[j].severity > 0,
                forall|j: int|
                    0 <= j < i && crate::sandwich::spec_in_tree(
                        (#[trigger] self.allergies@[j]).ingredient,
                        ingredient.name@,
                    ) && self.allergies@[j].severity >= SCALE ==> reacted,
            decreases self.allergies@.len() - i,
        {
            if self.allergies[i].ingredient.includes(ingredient) && rng.chance(
                self.allergies[i].severity,
            ) {
                reacted = true;
            }
            i = i + 1;
        }
        reacted
    }

    /// Reinforces one reading of a word: the first candidate meaning with the
    /// given category gains one unit of weight; a word seen for the first
    /// time enters the cloud with its default distribution, bumped.
    pub fn improve_match(&mut self, key: &Word, def: WordFunction)
        ensures
            spec_cloud_view(final(self).cloud@) == spec_improve(
                spec_cloud_view(old(self).cloud@),
                old(self).dictionary.spec_entries(),
                key@,
                def,
            ),
            *final(self) == (Personality { cloud: final(self).cloud, ..*old(self) }),
    {
        let ghost cv: Seq<(Seq<Syllable>, Seq<(EntryModel, u32)>)> = spec_cloud_view(self.cloud@);
        let mut ws: Vec<(DictionaryEntry, u32)> = self.get_cloud_entry(key);
        bump_weights(&mut ws, def);
        let mut i: usize = 0;
        proof {
            assert(cv.len() == self.cloud@.len());
        }
        while i < self.cloud.len()
            invariant
                i <= self.cloud@.len(),
                cv == spec_cloud_view(self.cloud@),
                cv == spec_cloud_view(old(self).cloud@),
                *self == (Personality { cloud: self.cloud, ..*old(self) }),
                cv.len() == self.cloud@.len(),
                spec_weights_view(ws@) == spec_bump(
                    spec_cloud_get(cv, old(self).dictionary.spec_entries(), key@),
                    def,
                ),
                forall|k: int| 0 <= k < i ==> (#[trigger] cv[k]).0 != key@,
            decreases self.cloud@.len() - i,
        {
            proof {
                assert(cv[i as int] == (self.cloud@[i as int].0@, spec_weights_view(
                    self.cloud@[i as int].1@,
                )));
            }
            if self.cloud[i].0.same(key) {
                let ghost before: Seq<(Word, Vec<(DictionaryEntry, u32)>)> = self.cloud@;
                let kw: Word = key.clone();
                self.cloud.set(i, (kw, ws));
                proof {
                    lemma_cloud_find_here(cv, key@, i as int);
                    let target = cv.update(i as int, (key@, spec_bump(cv[i as int].1, def)));
                    assert forall|x: int| 0 <= x < spec_cloud_view(self.cloud@).len() implies
                        spec_cloud_view(self.cloud@)[x] == target[x] by {
                        assert(spec_cloud_view(self.cloud@)[x] == (
                            self.cloud@[x].0@,
                            spec_weights_view(self.cloud@[x].1@),
                        ));
                        if x != i {
                            assert(self.cloud@[x] == before[x]);
                            assert(spec_cloud_view(before)[x] == (
                                before[x].0@,
                                spec_weights_view(before[x].1@),
                            ));
                        }
                    }
                    assert(spec_cloud_view(self.cloud@) =~~= target);
                }
                return ;
            }
            i = i + 1;
        }
        proof {
            lemma_cloud_find_none(cv, key@);
        }
        let kw: Word = key.clone();
        let ghost before: Seq<(Word, Vec<(DictionaryEntry, u32)>)> = self.cloud@;
        self.cloud.push((kw, ws));
        proof {
            let target = cv.push((key@, spec_bump(spec_default_weights(
                old(self).dictionary.spec_entries(),
            ), def)));
            assert forall|x: int| 0 <= x < spec_cloud_view(self.cloud@).len() implies
                spec_cloud_view(self.cloud@)[x] == target[x] by {
                assert(spec_cloud_view(self.cloud@)[x] == (
                    self.cloud@[x].0@,
                    spec_weights_view(self.cloud@[x].1@),
                ));
                if x < before.len() {
                    assert(self.cloud@[x] == before[x]);
                    assert(spec_cloud_view(before)[x] == (
                        before[x].0@,
                        spec_weights_view(before[x].1@),
                    ));
                }
            }
            assert(spec_cloud_view(self.cloud@) =~~= target);
        }
    }

    /// One step of passive forgetting for the four grammar skills: each
    /// loses a sixth of its gain.
    pub fn degrade_language_skills(&mut self)
        ensures
            final(self).adverbs == spec_decayed(old(self).adverbs as int),
            final(self).adposition == spec_decayed(old(self).adposition as int),
            final(self).conjunction == spec_decayed(old(self).conjunction as int),
            final(self).numbers == spec_decayed(old(self).numbers as int),
            *final(self) == (Personality {
                adverbs: final(self).adverbs,
                adposition: final(self).adposition,
                conjunction: final(self).conjunction,
                numbers: final(self).numbers,
                ..*old(self)
            }),
    {
        self.adverbs = self.adverbs - boost_of(self.adverbs) / 6;
        self.adposition = self.adposition - boost_of(self.adposition) / 6;
        self.conjunction = self.conjunction - boost_of(self.conjunction) / 6;
        self.numbers = self.numbers - boost_of(self.numbers) / 6;
    }

    /// One successful use of a construct, taken `mult` times: the weight
    /// grows by its gain per use, capped at the full weight. A zero tally
    /// leaves the weight alone.
    pub fn upgrade_skill(x: &mut u32, mult: u32)
        ensures
            *final(x) == spec_upgraded(*old(x) as int, mult as int),
    {
        let b: u32 = boost_of(*x);
        proof {
            assert(b as u64 * mult as u64 <= 42u64 * 0xffff_ffffu64) by (nonlinear_arith)
                requires
                    b <= 42,
                    mult <= 0xffff_ffffu32,
            ;
        }
        let wide: u64 = *x as u64 + b as u64 * mult as u64;
        if wide > SCALE as u64 {
            *x = SCALE;
        } else {
            *x = wide as u32;
        }
    }

    /// Applies a parse's construct tally to the grammar skills: each skill
    /// takes one upgrade step per recorded use of its construct.
    pub fn apply_upgrade(&mut self, lang: Language)
        ensures
            final(self).adposition == spec_upgraded(old(self).adposition as int, lang@.adposition),
            final(self).numbers == spec_upgraded(old(self).numbers as int, lang@.numbers),
            final(self).adverbs == spec_upgraded(old(self).adverbs as int, lang@.adverbs),
            final(self).conjunction == spec_upgraded(
                old(self).conjunction as int,
                lang@.conjunction,
            ),
            final(self).adverb_side == spec_upgraded(
                old(self).adverb_side as int,
                lang@.adverb_side,
            ),
            *final(self) == (Personality {
                adposition: final(self).adposition,
                numbers: final(self).numbers,
                adverbs: final(self).adverbs,
                conjunction: final(self).conjunction,
                adverb_side: final(self).adverb_side,
                ..*old(self)
            }),
    {
        Personality::upgrade_skill(&mut self.adposition, lang.adposition);
        Personality::upgrade_skill(&mut self.numbers, lang.numbers);
        Personality::upgrade_skill(&mut self.adverbs, lang.adverbs);
        Personality::upgrade_skill(&mut self.conjunction, lang.conjunction);
        Personality::upgrade_skill(&mut self.adverb_side, lang.adverb_side);
    }

    /// Remembers an eaten sandwich: it goes on top of the memory, which
    /// keeps only the last ten.
    pub fn eat(&mut self, sandwich: Sandwich)
        ensures
            final(self).history@ == (seq![sandwich] + old(self).history@).take(
                if old(self).history@.len() + 1 > 10 {
                    10int
                } else {
                    old(self).history@.len() + 1int
                },
            ),
            *final(self) == (Personality { history: final(self).history, ..*old(self) }),
    {
        let ghost full: Seq<Sandwich> = seq![sandwich] + old(self).history@;
        self.history.insert(0, sandwich);
        proof {
            assert(self.history@ =~~= full);
            assert(full.take(full.len() as int) =~~= full);
        }
        while self.history.len() > 10
            invariant
                self.history@.len() <= full.len(),
                self.history@.len() >= 10 || self.history@.len() == full.len(),
                self.history@ == full.take(self.history@.len() as int),
                *self == (Personality { history: self.history, ..*old(self) }),
            decreases self.history@.len(),
        {
            let ghost k: int = self.history@.len() as int;
            self.history.pop();
            proof {
                assert(full.take(k).drop_last() =~~= full.take(k - 1));
            }
        }
    }

    /// Strengthens the liking for a named ingredient: the first existing
    /// preference for it takes one upgrade step, and a fresh mild
    /// preference is appended when the taxonomy knows the name.
    pub fn increase_preference(&mut self, name: &str)
        ensures
            spec_prefs_view(final(self).preferences@) == spec_prefs_bumped(
                spec_prefs_view(old(self).preferences@),
                name@,
            ) + (if crate::sandwich::spec_in_tree(old(self).dictionary.ingredients, name@) {
                seq![(name@, 100int)]
            } else {
                Seq::<(Seq<char>, int)>::empty()
            }),
            *final(self) == (Personality { preferences: final(self).preferences, ..*old(self) }),
    {
        let ghost pv: Seq<(Seq<char>, int)> = spec_prefs_view(self.preferences@);
        let mut i: usize = 0;
        proof {
            assert(pv.len() == self.preferences@.len());
        }
        while i < self.preferences.len()
            invariant
                i <= self.preferences@.len(),
                pv == spec_prefs_view(self.preferences@),
                pv == spec_prefs_view(old(self).preferences@),
                *self == (Personality { preferences: self.preferences, ..*old(self) }),
                pv.len() == self.preferences@.len(),
                forall|k: int| 0 <= k < i ==> (#[trigger] pv[k]).0 != name@,
            decreases self.preferences@.len() - i,
        {
            proof {
                assert(pv[i as int] == (
                    self.preferences@[i as int].ingredient.name@,
                    self.preferences@[i as int].severity as int,
                ));
            }
            if text_matches(&self.preferences[i].ingredient.name, name) {
                let mut sev: u32 = self.preferences[i].severity;
                Personality::upgrade_skill(&mut sev, 1);
                let ingr: Ingredient = self.preferences[i].ingredient.clone();
                let ghost before: Seq<Preference> = self.preferences@;
                self.preferences.set(i, Preference { ingredient: ingr, severity: sev });
                proof {
                    lemma_prefs_bumped_here(pv, name@, i as int);
                    let target = pv.update(
                        i as int,
                        (pv[i as int].0, spec_upgraded(pv[i as int].1, 1)),
                    );
                    assert forall|x: int| 0 <= x < spec_prefs_view(self.preferences@).len()
                        implies spec_prefs_view(self.preferences@)[x] == target[x] by {
                        assert(spec_prefs_view(self.preferences@)[x] == (
                            self.preferences@[x].ingredient.name@,
                            self.preferences@[x].severity as int,
                        ));
                        if x != i {
                            assert(self.preferences@[x] == before[x]);
                            assert(spec_prefs_view(before)[x] == (
                                before[x].ingredient.name@,
                                before[x].severity as int,
                            ));
                        }
                    }
                    assert(spec_prefs_view(self.preferences@) =~~= target);
                }
                self.push_fresh_preference(name);
                return ;
            }
            i = i + 1;
        }
        proof {
            lemma_prefs_bumped_none(pv, name@);
        }
        self.push_fresh_preference(name);
    }

    /// Appends a fresh mild preference for the named ingredient, when the
    /// taxonomy knows it.
    fn push_fresh_preference(&mut self, name: &str)
        ensures
            spec_prefs_view(final(self).preferences@) == spec_prefs_view(old(self).preferences@)
                + (if crate::sandwich::spec_in_tree(old(self).dictionary.ingredients, name@) {
                seq![(name@, 100int)]
            } else {
                Seq::<(Seq<char>, int)>::empty()
            }),
            *final(self) == (Personality { preferences: final(self).preferences, ..*old(self) }),
    {
        let found: Option<Ingredient> = match self.dictionary.ingredients.from_def(name) {
            Some(node) => Some(node.clone()),
            None => None,
        };
        match found {
            Some(ingr) => {
                let ghost before: Seq<Preference> = self.preferences@;
                self.preferences.push(Preference { ingredient: ingr, severity: 100 });
                proof {
                    let target = spec_prefs_view(before) + seq![(name@, 100int)];
                    assert forall|x: int| 0 <= x < spec_prefs_view(self.preferences@).len()
                        implies spec_prefs_view(self.preferences@)[x] == target[x] by {
                        assert(spec_prefs_view(self.preferences@)[x] == (
                            self.preferences@[x].ingredient.name@,
                            self.preferences@[x].severity as int,
                        ));
                        if x < before.len() {
                            assert(self.preferences@[x] == before[x]);
                            assert(spec_prefs_view(before)[x] == (
                                before[x].ingredient.name@,
                                before[x].severity as int,
                            ));
                        }
                    }
                    assert(spec_prefs_view(self.preferences@) =~~= target);
                }
            },
            None => {
                proof {
                    assert(spec_prefs_view(self.preferences@) + Seq::<(Seq<char>, int)>::empty()
                        =~~= spec_prefs_view(self.preferences@));
                }
            },
        }
    }
}

/// Strengthening a liking: the first preference under the name takes one
/// upgrade step.
pub open spec fn spec_prefs_bumped(ps: Seq<(Seq<char>, int)>, name: Seq<char>) -> Seq<
    (Seq<char>, int),
>
    decreases ps.len(),
{
    if ps.len() == 0 {
        ps
    } else if ps[0].0 == name {
        seq![(ps[0].0, spec_upgraded(ps[0].1, 1))] + ps.drop_first()
    } else {
        seq![ps[0]] + spec_prefs_bumped(ps.drop_first(), name)
    }
}

/// The name sits first at index `i`: the bump is an update there.
proof fn lemma_prefs_bumped_here(ps: Seq<(Seq<char>, int)>, name: Seq<char>, i: int)
    requires
        0 <= i < ps.len(),
        ps[i].0 == name,
        forall|k: int| 0 <= k < i ==> ps[k].0 != name,
    ensures
        spec_prefs_bumped(ps, name) == ps.update(i, (ps[i].0, spec_upgraded(ps[i].1, 1))),
    decreases i,
{
    if i == 0 {
        assert(spec_prefs_bumped(ps, name) =~~= ps.update(
            0,
            (ps[0].0, spec_upgraded(ps[0].1, 1)),
        ));
    } else {
        assert(forall|k: int| 0 <= k < i - 1 ==> ps.drop_first()[k].0 != name);
        lemma_prefs_bumped_here(ps.drop_first(), name, i - 1);
        assert(seq![ps[0]] + ps.drop_first().update(
            i - 1,
            (ps.drop_first()[i - 1].0, spec_upgraded(ps.drop_first()[i - 1].1, 1)),
        ) =~~= ps.update(i, (ps[i].0, spec_upgraded(ps[i].1, 1))));
    }
}

/// No preference bears the name: the bump changes nothing.
proof fn lemma_prefs_bumped_none(ps: Seq<(Seq<char>, int)>, name: Seq<char>)
    requires
        forall|k: int| 0 <= k < ps.len() ==> ps[k].0 != name,
    ensures
        spec_prefs_bumped(ps, name) == ps,
    decreases ps.len(),
{
    if ps.len() > 0 {
        assert(forall|k: int| 0 <= k < ps.drop_first().len() ==> ps.drop_first()[k].0 != name);
        lemma_prefs_bumped_none(ps.drop_first(), name);
        assert(seq![ps[0]] + ps.drop_first() =~~= ps);
    }
}

/// Reinforces the first candidate with the category in a weighted list.
fn bump_weights(ws: &mut Vec<(DictionaryEntry, u32)>, f: WordFunction)
    ensures
        spec_weights_view(final(ws)@) == spec_bump(spec_weights_view(old(ws)@), f),
{
    let ghost wv: Seq<(EntryModel, u32)> = spec_weights_view(ws@);
    let mut i: usize = 0;
    proof {
        assert(wv.len() == ws@.len());
        assert(wv.skip(0) =~~= wv);
        assert(wv.take(0) =~~= Seq::<(EntryModel, u32)>::empty());
        assert(Seq::<(EntryModel, u32)>::empty() + spec_bump(wv, f) =~~= spec_bump(wv, f));
    }
    while i < ws.len()
        invariant
            i <= ws@.len(),
            wv == spec_weights_view(ws@),
            wv == spec_weights_view(old(ws)@),
            wv.len() == ws@.len(),
            forall|k: int| 0 <= k < i ==> (#[trigger] wv[k]).0.function != f,
            spec_bump(wv, f) == wv.take(i as int) + spec_bump(wv.skip(i as int), f),
        decreases ws@.len() - i,
    {
        proof {
            assert(wv[i as int] == (ws@[i as int].0@, ws@[i as int].1));
            assert(wv.skip(i as int)[0] == wv[i as int]);
            assert(wv.skip(i as int).drop_first() =~~= wv.skip(i + 1));
        }
        if ws[i].0.function == f {
            let e: DictionaryEntry = ws[i].0.clone();
            let w: u32 = ws[i].1;
            let nw: u32 = sat_add(w, 1);
            let ghost before: Seq<(DictionaryEntry, u32)> = ws@;
            ws.set(i, (e, nw));
            proof {
                assert(spec_bump(wv.skip(i as int), f) =~~= seq![
                    (wv[i as int].0, spec_sat_add(wv[i as int].1 as int, 1) as u32),
                ] + wv.skip(i + 1));
                assert forall|x: int| 0 <= x < spec_weights_view(ws@).len() implies
                    spec_weights_view(ws@)[x] == spec_bump(wv, f)[x] by {
                    assert(spec_weights_view(ws@)[x] == (ws@[x].0@, ws@[x].1));
                    if x != i {
                        assert(ws@[x] == before[x]);
                        assert(spec_weights_view(before)[x] == (before[x].0@, before[x].1));
                    }
                }
                assert(spec_weights_view(ws@) =~~= spec_bump(wv, f));
            }
            return ;
        }
        proof {
            assert(spec_bump(wv.skip(i as int), f) =~~= seq![wv[i as int]] + spec_bump(
                wv.skip(i + 1),
                f,
            ));
            assert(wv.take(i as int) + (seq![wv[i as int]] + spec_bump(wv.skip(i + 1), f))
                =~~= wv.take(i + 1) + spec_bump(wv.skip(i + 1), f));
        }
        i = i + 1;
    }
    proof {
        assert(spec_bump(wv.skip(wv.len() as int), f) =~~= Seq::<(EntryModel, u32)>::empty());
        assert(wv.take(wv.len() as int) + Seq::<(EntryModel, u32)>::empty() =~~= wv);
    }
}

/// A copy of a weighted meaning list.
fn clone_weights(v: &Vec<(DictionaryEntry, u32)>) -> (r: Vec<(DictionaryEntry, u32)>)
    ensures
        spec_weights_view(r@) == spec_weights_view(v@),
{
    let mut out: Vec<(DictionaryEntry, u32)> = Vec::new();
    let mut i: usize = 0;
    proof {
        assert(spec_weights_view(v@).len() == v@.len());
        assert(spec_weights_view(out@) =~~= spec_weights_view(v@).take(0));
    }
    while i < v.len()
        invariant
            i <= v@.len(),
            spec_weights_view(out@) == spec_weights_view(v@).take(i as int),
        decreases v@.len() - i,
    {
        let e: DictionaryEntry = v[i].0.clone();
        let w: u32 = v[i].1;
        let ghost before: Seq<(DictionaryEntry, u32)> = out@;
        out.push((e, w));
        proof {
            let target = spec_weights_view(v@);
            assert(spec_weights_view(before).len() == before.len());
            assert(target.take(i as int).len() == i);
            assert(target[i as int] == (v@[i as int].0@, v@[i as int].1));
            assert forall|x: int| 0 <= x < spec_weights_view(out@).len() implies spec_weights_view(
                out@,
            )[x] == target.take(i + 1)[x] by {
                assert(spec_weights_view(out@)[x] == (out@[x].0@, out@[x].1));
                if x < before.len() {
                    assert(out@[x] == before[x]);
                    assert(spec_weights_view(before)[x] == (before[x].0@, before[x].1));
                }
            }
            assert(spec_weights_view(out@) =~~= target.take(i + 1));
        }
        i = i + 1;
    }
    proof {
        assert(spec_weights_view(v@).take(v@.len() as int) =~~= spec_weights_view(v@));
    }
    out
}

/// The word sits at index `i`, nothing earlier matches: the search finds it.
proof fn lemma_cloud_find_here(
    c: Seq<(Seq<Syllable>, Seq<(EntryModel, u32)>)>,
    w: Seq<Syllable>,
    i: int,
)
    requires
        0 <= i < c.len(),
        c[i].0 == w,
        forall|k: int| 0 <= k < i ==> c[k].0 != w,
    ensures
        spec_cloud_find(c, w) == Some(i),
    decreases i,
{
    if i > 0 {
        assert(forall|k: int| 0 <= k < i - 1 ==> c.drop_first()[k].0 != w);
        lemma_cloud_find_here(c.drop_first(), w, i - 1);
    }
}

/// Nothing matches: the search fails.
proof fn lemma_cloud_find_none(c: Seq<(Seq<Syllable>, Seq<(EntryModel, u32)>)>, w: Seq<Syllable>)
    requires
        forall|k: int| 0 <= k < c.len() ==> c[k].0 != w,
    ensures
        spec_cloud_find(c, w) is None,
    decreases c.len(),
{
    if c.len() > 0 {
        assert(forall|k: int| 0 <= k < c.drop_first().len() ==> c.drop_first()[k].0 != w);
        lemma_cloud_find_none(c.drop_first(), w);
    }
}

/// Skill growth under success: below the full weight and above one
/// percent, one more successful use strictly increases the weight, and the
/// weight never passes the full weight. Weights at one percent or below
/// sit at the gain floor and do not move, where the true logarithm would
/// be zero or negative.
pub proof fn lemma_skill_growth(x: int, mult: int)
    requires
        11 <= x < SCALE,
        mult >= 1,
    ensures
        x < spec_upgraded(x, mult),
        spec_upgraded(x, mult) <= SCALE,
{
    assert(spec_boost(x) >= 1);
    assert(spec_boost(x) * mult >= 1) by (nonlinear_arith)
        requires
            spec_boost(x) >= 1,
            mult >= 1,
    ;
}

} // verus!
