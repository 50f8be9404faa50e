//! The operation algebra: a closed set of typed, reversible edits to a
//! sandwich, each supporting apply, reverse, respond, question, encode, and
//! skill attribution.
//!
//! An operation's whole observable meaning is captured by [`OpModel`] and
//! the transition function [`spec_apply`]: sandwiches and inventories are
//! compared by ingredient name, and the only personality state an
//! application may touch is the inventory and the meaning cloud.

use vstd::prelude::*;

use crate::behavior::personality::{
    spec_cloud_view, spec_improve, spec_inv_count, spec_inv_dec, spec_inv_view, Language, LanguageModel, Personality,
};
use crate::grammar::{
    AnnotatedWord, AnnotatedWordModel, Dictionary, DictionaryEntry, EntryModel, Syllable, Word,
    WordFunction, WordRole,
};
use crate::random::{Entropy, SCALE};
use crate::sandwich::{spec_names, spec_word_for, Ingredient, Sandwich};

verus! {

/// A positional qualifier for an addition.
#[derive(Debug)]
pub enum Relative {
    /// Right before the named ingredient.
    Before(Ingredient),
    /// Right after the named ingredient.
    After(Ingredient),
    /// On top of the whole sandwich.
    Top,
}

/// The mathematical content of a position: the anchor's name, if any.
pub ghost enum RelModel {
    Before(Seq<char>),
    After(Seq<char>),
    Top,
}

impl View for Relative {
    type V = RelModel;

    open spec fn view(&self) -> RelModel {
        match *self {
            Relative::Before(ref i) => RelModel::Before(i.name@),
            Relative::After(ref i) => RelModel::After(i.name@),
            Relative::Top => RelModel::Top,
        }
    }
}

impl Relative {
    /// The position a preposition's category denotes around the given
    /// ingredient; any other category means the plain top.
    pub fn from_def(def: WordFunction, ingredient: Ingredient) -> (r: Relative)
        ensures
            r@ == spec_rel_from_def(def, ingredient.name@),
    {
        match def {
            WordFunction::Before => Relative::Before(ingredient),
            WordFunction::After => Relative::After(ingredient),
            _ => Relative::Top,
        }
    }
}

/// The position a preposition's category denotes.
pub open spec fn spec_rel_from_def(def: WordFunction, name: Seq<char>) -> RelModel {
    match def {
        WordFunction::Before => RelModel::Before(name),
        WordFunction::After => RelModel::After(name),
        _ => RelModel::Top,
    }
}

/// A typed edit to a sandwich.
#[derive(Debug)]
pub enum Operation {
    /// Insert the ingredient at the given position, when stock remains.
    Add(Ingredient, Relative),
    /// Delete the first matching ingredient.
    Remove(Ingredient),
    /// Delete every matching ingredient.
    RemoveAll(Ingredient),
    /// Close the order.
    Finish,
    /// Apply the inner operation several times over.
    Repeat(u32, Box<Operation>),
    /// Apply two operations in sequence.
    Compound(Box<Operation>, Box<Operation>),
    /// Record the ingredient as confirmed present.
    Ensure(Ingredient),
    /// Keep re-applying the inner operation every turn.
    Persist(Box<Operation>),
    /// Confirm the last phrase was understood, reinforcing its readings.
    Affirm,
    /// Decline; the foil to the confirmation.
    Negate,
    /// Ask whether the ingredient is available.
    CheckFor(Ingredient),
}

/// The mathematical content of an operation: the same shape over ingredient
/// names.
pub ghost enum OpModel {
    Add(Seq<char>, RelModel),
    Remove(Seq<char>),
    RemoveAll(Seq<char>),
    Finish,
    Repeat(int, Box<OpModel>),
    Compound(Box<OpModel>, Box<OpModel>),
    Ensure(Seq<char>),
    Persist(Box<OpModel>),
    Affirm,
    Negate,
    CheckFor(Seq<char>),
}

/// The model of an operation.
pub open spec fn spec_op_view(op: Operation) -> OpModel
    decreases op,
{
    match op {
        Operation::Add(i, rel) => OpModel::Add(i.name@, rel@),
        Operation::Remove(i) => OpModel::Remove(i.name@),
        Operation::RemoveAll(i) => OpModel::RemoveAll(i.name@),
        Operation::Finish => OpModel::Finish,
        Operation::Repeat(n, inner) => OpModel::Repeat(
            n as int,
            Box::new(spec_op_view(*inner)),
        ),
        Operation::Compound(a, b) => OpModel::Compound(
            Box::new(spec_op_view(*a)),
            Box::new(spec_op_view(*b)),
        ),
        Operation::Ensure(i) => OpModel::Ensure(i.name@),
        Operation::Persist(inner) => OpModel::Persist(Box::new(spec_op_view(*inner))),
        Operation::Affirm => OpModel::Affirm,
        Operation::Negate => OpModel::Negate,
        Operation::CheckFor(i) => OpModel::CheckFor(i.name@),
    }
}

impl View for Operation {
    type V = OpModel;

    open spec fn view(&self) -> OpModel {
        spec_op_view(*self)
    }
}

/// Everything an application may read or write: the sandwich under edit,
/// the agent's stock, its meaning cloud, and the last phrase annotation.
pub ghost struct ApplyState {
    pub ingredients: Seq<Seq<char>>,
    pub ensured: Seq<Seq<char>>,
    pub complete: bool,
    pub inventory: Seq<(Seq<char>, int)>,
    pub cloud: Seq<(Seq<Syllable>, Seq<(EntryModel, u32)>)>,
    pub last_lex: Option<Seq<AnnotatedWordModel>>,
}

/// The application state a sandwich and a personality hold together.
pub open spec fn spec_state(s: Sandwich, p: Personality) -> ApplyState {
    ApplyState {
        ingredients: spec_names(s.ingredients@),
        ensured: spec_names(s.ensured@),
        complete: s.complete,
        inventory: spec_inv_view(p.inventory@),
        cloud: spec_cloud_view(p.cloud@),
        last_lex: match p.last_lex {
            Some(lex) => Some(crate::grammar::views_of_annotated(lex@)),
            None => None,
        },
    }
}

/// The first position of a name in an ingredient list.
pub open spec fn spec_find_name(s: Seq<Seq<char>>, name: Seq<char>) -> Option<int>
    decreases s.len(),
{
    if s.len() == 0 {
        None
    } else if s[0] == name {
        Some(0)
    } else {
        match spec_find_name(s.drop_first(), name) {
            Some(i) => Some(i + 1),
            None => None,
        }
    }
}

/// An ingredient list with every occurrence of a name removed.
pub open spec fn spec_without(s: Seq<Seq<char>>, name: Seq<char>) -> Seq<Seq<char>>
    decreases s.len(),
{
    if s.len() == 0 {
        s
    } else if s[0] == name {
        spec_without(s.drop_first(), name)
    } else {
        seq![s[0]] + spec_without(s.drop_first(), name)
    }
}

/// Reinforcing a whole annotated phrase, word by word, front first.
pub open spec fn spec_affirm_lex(
    lex: Seq<AnnotatedWordModel>,
    cloud: Seq<(Seq<Syllable>, Seq<(EntryModel, u32)>)>,
    es: Seq<(Seq<Syllable>, EntryModel)>,
) -> Seq<(Seq<Syllable>, Seq<(EntryModel, u32)>)>
    decreases lex.len(),
{
    if lex.len() == 0 {
        cloud
    } else {
        spec_affirm_lex(
            lex.drop_first(),
            match lex[0].entry {
                Some(e) => spec_improve(cloud, es, lex[0].word, e.function),
                None => cloud,
            },
            es,
        )
    }
}

/// The meaning of one operation: how it transforms the application state.
/// Additions spend stock and fail quietly without it; a positional addition
/// whose anchor is absent changes nothing.
pub open spec fn spec_apply(
    m: OpModel,
    st: ApplyState,
    es: Seq<(Seq<Syllable>, EntryModel)>,
) -> ApplyState
    decreases m, 0int,
{
    match m {
        OpModel::Add(name, rel) => {
            if spec_inv_count(st.inventory, name) <= 0 {
                st
            } else {
                let idx = match rel {
                    RelModel::Before(o) => spec_find_name(st.ingredients, o),
                    RelModel::After(o) => match spec_find_name(st.ingredients, o) {
                        Some(i) => Some(i + 1),
                        None => None,
                    },
                    RelModel::Top => Some(st.ingredients.len() as int),
                };
                match idx {
                    Some(i) => ApplyState {
                        ingredients: st.ingredients.insert(i, name),
                        inventory: spec_inv_dec(st.inventory, name),
                        ..st
                    },
                    None => st,
                }
            }
        },
        OpModel::Remove(name) => match spec_find_name(st.ingredients, name) {
            Some(i) => ApplyState { ingredients: st.ingredients.remove(i), ..st },
            None => st,
        },
        OpModel::RemoveAll(name) => ApplyState {
            ingredients: spec_without(st.ingredients, name),
            ..st
        },
        OpModel::Finish => ApplyState { complete: true, ..st },
        OpModel::Repeat(n, inner) => spec_apply_n(*inner, n, st, es),
        OpModel::Compound(a, b) => spec_apply(*b, spec_apply(*a, st, es), es),
        OpModel::Ensure(name) => {
            if st.ensured.contains(name) {
                st
            } else {
                ApplyState { ensured: st.ensured.push(name), ..st }
            }
        },
        OpModel::Persist(inner) => spec_apply(*inner, st, es),
        OpModel::Affirm => match st.last_lex {
            Some(lex) => ApplyState { cloud: spec_affirm_lex(lex, st.cloud, es), ..st },
            None => st,
        },
        OpModel::Negate => st,
        OpModel::CheckFor(_) => st,
    }
}

/// The inner operation applied `n` times in sequence.
pub open spec fn spec_apply_n(
    inner: OpModel,
    n: int,
    st: ApplyState,
    es: Seq<(Seq<Syllable>, EntryModel)>,
) -> ApplyState
    decreases inner, n,
{
    if n <= 0 {
        st
    } else {
        spec_apply_n(inner, n - 1, spec_apply(inner, st, es), es)
    }
}

/// The structural reverse of an operation.
pub open spec fn spec_reverse(m: OpModel) -> OpModel
    decreases m,
{
    match m {
        OpModel::Add(name, _) => OpModel::Remove(name),
        OpModel::Remove(name) => OpModel::Add(name, RelModel::Top),
        OpModel::RemoveAll(name) => OpModel::Ensure(name),
        OpModel::Finish => OpModel::Finish,
        OpModel::Repeat(n, inner) => OpModel::Repeat(n, Box::new(spec_reverse(*inner))),
        OpModel::Compound(a, b) => OpModel::Compound(
            Box::new(spec_reverse(*a)),
            Box::new(spec_reverse(*b)),
        ),
        OpModel::Ensure(name) => OpModel::Remove(name),
        OpModel::Persist(inner) => OpModel::Persist(Box::new(spec_reverse(*inner))),
        OpModel::Affirm => OpModel::Negate,
        OpModel::Negate => OpModel::Affirm,
        OpModel::CheckFor(name) => OpModel::CheckFor(name),
    }
}

/// The construct tally of an operation, as unbounded counts.
pub open spec fn spec_skills(m: OpModel) -> LanguageModel
    decreases m,
{
    match m {
        OpModel::Add(_, rel) => LanguageModel {
            adverbs: 0,
            adverb_side: 0,
            adposition: if rel is Top {
                0
            } else {
                1
            },
            conjunction: 0,
            numbers: 0,
        },
        OpModel::Remove(_) => LanguageModel {
            adverbs: 1,
            adverb_side: 0,
            adposition: 0,
            conjunction: 0,
            numbers: 0,
        },
        OpModel::RemoveAll(_) => LanguageModel {
            adverbs: 1,
            adverb_side: 0,
            adposition: 0,
            conjunction: 0,
            numbers: 0,
        },
        OpModel::Repeat(_, inner) => LanguageModel {
            numbers: spec_skills(*inner).numbers + 1,
            ..spec_skills(*inner)
        },
        OpModel::Compound(a, b) => {
            let sa = spec_skills(*a);
            let sb = spec_skills(*b);
            LanguageModel {
                adverbs: sa.adverbs + sb.adverbs,
                adverb_side: sa.adverb_side + sb.adverb_side,
                adposition: sa.adposition + sb.adposition,
                conjunction: sa.conjunction + sb.conjunction + 1,
                numbers: sa.numbers + sb.numbers,
            }
        },
        OpModel::Persist(inner) => spec_skills(*inner),
        _ => LanguageModel { adverbs: 0, adverb_side: 0, adposition: 0, conjunction: 0, numbers: 0 },
    }
}

/// Counts capped at the machine word, field by field.
pub open spec fn spec_cap_language(m: LanguageModel) -> LanguageModel {
    LanguageModel {
        adverbs: spec_cap(m.adverbs),
        adverb_side: spec_cap(m.adverb_side),
        adposition: spec_cap(m.adposition),
        conjunction: spec_cap(m.conjunction),
        numbers: spec_cap(m.numbers),
    }
}

/// A count capped at the machine word.
pub open spec fn spec_cap(x: int) -> int {
    if x > u32::MAX {
        u32::MAX as int
    } else {
        x
    }
}

impl Operation {
    /// The structural reverse: additions and removals swap, confirmations
    /// pair with their foils, wrappers reverse inside.
    pub fn reverse(&self) -> (r: Operation)
        ensures
            r@ == spec_reverse(self@),
        decreases *self,
    {
        match self {
            Operation::Add(i, _) => Operation::Remove(i.clone()),
            Operation::Remove(i) => Operation::Add(i.clone(), Relative::Top),
            Operation::RemoveAll(i) => Operation::Ensure(i.clone()),
            Operation::Finish => Operation::Finish,
            Operation::Repeat(n, inner) => {
                proof {
                    assert(decreases_to!(*self => **inner));
                }
                Operation::Repeat(*n, Box::new(inner.reverse()))
            },
            Operation::Compound(a, b) => {
                proof {
                    assert(decreases_to!(*self => **a));
                    assert(decreases_to!(*self => **b));
                }
                Operation::Compound(Box::new(a.reverse()), Box::new(b.reverse()))
            },
            Operation::Ensure(i) => Operation::Remove(i.clone()),
            Operation::Persist(inner) => {
                proof {
                    assert(decreases_to!(*self => **inner));
                }
                Operation::Persist(Box::new(inner.reverse()))
            },
            Operation::Affirm => Operation::Negate,
            Operation::Negate => Operation::Affirm,
            Operation::CheckFor(i) => Operation::CheckFor(i.clone()),
        }
    }

    /// Whether the effect should be retained and re-applied every turn.
    pub fn is_persistent(&self) -> (r: bool)
        ensures
            r == (self@ is Persist),
    {
        match self {
            Operation::Persist(_) => true,
            _ => false,
        }
    }

    /// The interrogative form: additions and confirmations become
    /// availability questions, a questioned question becomes a statement,
    /// and the rest have no question form.
    pub fn question(&self) -> (r: Option<Operation>)
        ensures
            match r {
                Some(op) => spec_question(self@) == Some(op@),
                None => spec_question(self@) is None,
            },
    {
        match self {
            Operation::Add(i, _) => Some(Operation::CheckFor(i.clone())),
            Operation::Ensure(i) => Some(Operation::CheckFor(i.clone())),
            Operation::CheckFor(i) => Some(Operation::Add(i.clone(), Relative::Top)),
            _ => None,
        }
    }

    /// The grammatical constructs this operation exercises, summed over
    /// nested operations and capped at the machine word.
    pub fn skills(&self) -> (r: Language)
        ensures
            r@ == spec_cap_language(spec_skills(self@)),
        decreases *self,
    {
        match self {
            Operation::Add(_, rel) => {
                let adposition: u32 = match rel {
                    Relative::Top => 0,
                    _ => 1,
                };
                Language { adverbs: 0, adverb_side: 0, adposition, conjunction: 0, numbers: 0 }
            },
            Operation::Remove(_) => Language {
                adverbs: 1,
                adverb_side: 0,
                adposition: 0,
                conjunction: 0,
                numbers: 0,
            },
            Operation::RemoveAll(_) => Language {
                adverbs: 1,
                adverb_side: 0,
                adposition: 0,
                conjunction: 0,
                numbers: 0,
            },
            Operation::Repeat(_, inner) => {
                proof {
                    assert(decreases_to!(*self => **inner));
                    lemma_skills_nonneg(spec_op_view(**inner));
                }
                let base: Language = inner.skills();
                let one: Language = Language {
                    adverbs: 0,
                    adverb_side: 0,
                    adposition: 0,
                    conjunction: 0,
                    numbers: 1,
                };
                base.combine(one)
            },
            Operation::Compound(a, b) => {
                proof {
                    assert(decreases_to!(*self => **a));
                    assert(decreases_to!(*self => **b));
                    lemma_skills_nonneg(spec_op_view(**a));
                    lemma_skills_nonneg(spec_op_view(**b));
                }
                let sa: Language = a.skills();
                let sb: Language = b.skills();
                let one: Language = Language {
                    adverbs: 0,
                    adverb_side: 0,
                    adposition: 0,
                    conjunction: 1,
                    numbers: 0,
                };
                sa.combine(sb).combine(one)
            },
            Operation::Persist(inner) => {
                proof {
                    assert(decreases_to!(*self => **inner));
                }
                inner.skills()
            },
            _ => Language { adverbs: 0, adverb_side: 0, adposition: 0, conjunction: 0, numbers: 0 },
        }
    }
}

/// The first position of an ingredient with the given name.
fn find_name_index(v: &Vec<Ingredient>, name: &String) -> (r: Option<usize>)
    ensures
        match r {
            Some(x) => spec_find_name(spec_names(v@), name@) == Some(x as int) && x < v@.len(),
            None => spec_find_name(spec_names(v@), name@) is None,
        },
{
    let ghost nv: Seq<Seq<char>> = spec_names(v@);
    let mut i: usize = 0;
    proof {
        assert(nv.len() == v@.len());
    }
    while i < v.len()
        invariant
            i <= v@.len(),
            nv == spec_names(v@),
            nv.len() == v@.len(),
            forall|k: int| 0 <= k < i ==> nv[k] != name@,
        decreases v@.len() - i,
    {
        proof {
            assert(nv[i as int] == v@[i as int].name@);
        }
        if v[i].name == *name {
            proof {
                lemma_find_name_here(nv, name@, i as int);
            }
            return Some(i);
        }
        i = i + 1;
    }
    proof {
        lemma_find_name_none(nv, name@);
    }
    None
}

/// The name sits first at index `i`: the search finds it.
proof fn lemma_find_name_here(s: Seq<Seq<char>>, name: Seq<char>, i: int)
    requires
        0 <= i < s.len(),
        s[i] == name,
        forall|k: int| 0 <= k < i ==> s[k] != name,
    ensures
        spec_find_name(s, name) == Some(i),
    decreases i,
{
    if i > 0 {
        assert(forall|k: int| 0 <= k < i - 1 ==> s.drop_first()[k] != name);
        lemma_find_name_here(s.drop_first(), name, i - 1);
    }
}

/// The name is absent: the search fails.
proof fn lemma_find_name_none(s: Seq<Seq<char>>, name: Seq<char>)
    requires
        forall|k: int| 0 <= k < s.len() ==> s[k] != name,
    ensures
        spec_find_name(s, name) is None,
    decreases s.len(),
{
    if s.len() > 0 {
        assert(forall|k: int| 0 <= k < s.drop_first().len() ==> s.drop_first()[k] != name);
        lemma_find_name_none(s.drop_first(), name);
    }
}

/// Filtering one more element extends the filtered prefix.
proof fn lemma_without_snoc(s: Seq<Seq<char>>, x: Seq<char>, name: Seq<char>)
    ensures
        spec_without(s.push(x), name) == spec_without(s, name) + (if x == name {
            Seq::<Seq<char>>::empty()
        } else {
            seq![x]
        }),
    decreases s.len(),
{
    assert(s.push(x).len() == s.len() + 1);
    if s.len() == 0 {
        assert(s.push(x)[0] == x);
        assert(s.push(x).drop_first() =~~= Seq::<Seq<char>>::empty());
        assert(spec_without(Seq::<Seq<char>>::empty(), name) =~~= Seq::<Seq<char>>::empty());
        if x == name {
            assert(spec_without(s.push(x), name) =~~= spec_without(s, name) + Seq::<
                Seq<char>,
            >::empty());
        } else {
            assert(spec_without(s.push(x), name) =~~= spec_without(s, name) + seq![x]);
        }
    } else {
        assert(s.push(x)[0] == s[0]);
        assert(s.push(x).drop_first() =~~= s.drop_first().push(x));
        lemma_without_snoc(s.drop_first(), x, name);
        if s[0] == name {
        } else {
            assert(seq![s[0]] + (spec_without(s.drop_first(), name) + (if x == name {
                Seq::<Seq<char>>::empty()
            } else {
                seq![x]
            })) =~~= (seq![s[0]] + spec_without(s.drop_first(), name)) + (if x == name {
                Seq::<Seq<char>>::empty()
            } else {
                seq![x]
            }));
        }
    }
}

/// A copy of an annotated phrase, view for view.
fn clone_annotated(v: &Vec<AnnotatedWord>) -> (r: Vec<AnnotatedWord>)
    ensures
        crate::grammar::views_of_annotated(r@) == crate::grammar::views_of_annotated(v@),
{
    let mut out: Vec<AnnotatedWord> = Vec::new();
    let mut i: usize = 0;
    proof {
        assert(crate::grammar::views_of_annotated(v@).len() == v@.len());
        assert(crate::grammar::views_of_annotated(out@) =~~= crate::grammar::views_of_annotated(
            v@,
        ).take(0));
    }
    while i < v.len()
        invariant
            i <= v@.len(),
            crate::grammar::views_of_annotated(out@) == crate::grammar::views_of_annotated(
                v@,
            ).take(i as int),
        decreases v@.len() - i,
    {
        let ghost before: Seq<AnnotatedWord> = out@;
        out.push(v[i].clone());
        proof {
            let target = crate::grammar::views_of_annotated(v@);
            assert(crate::grammar::views_of_annotated(before).len() == before.len());
            assert(target.take(i as int).len() == i);
            assert(target[i as int] == v@[i as int]@);
            assert forall|x: int|
                0 <= x < crate::grammar::views_of_annotated(out@).len() implies
                crate::grammar::views_of_annotated(out@)[x] == target.take(i + 1)[x] by {
                assert(crate::grammar::views_of_annotated(out@)[x] == out@[x]@);
                if x < before.len() {
                    assert(out@[x] == before[x]);
                    assert(crate::grammar::views_of_annotated(before)[x] == before[x]@);
                }
            }
            assert(crate::grammar::views_of_annotated(out@) =~~= target.take(i + 1));
        }
        i = i + 1;
    }
    proof {
        assert(crate::grammar::views_of_annotated(v@).take(v@.len() as int)
            =~~= crate::grammar::views_of_annotated(v@));
    }
    out
}

impl Operation {
    /// Applies the edit: the returned sandwich and the personality's stock,
    /// cloud, and nothing else, change exactly as the transition function
    /// [`spec_apply`] says.
    pub fn apply(&self, sandwich: Sandwich, personality: &mut Personality) -> (r: Sandwich)
        ensures
            spec_state(r, *final(personality)) == spec_apply(
                self@,
                spec_state(sandwich, *old(personality)),
                old(personality).dictionary.spec_entries(),
            ),
            r.background_color@ == sandwich.background_color@,
            *final(personality) == (Personality {
                inventory: final(personality).inventory,
                cloud: final(personality).cloud,
                ..*old(personality)
            }),
        decreases *self,
    {
        let ghost st0: ApplyState = spec_state(sandwich, *personality);
        let ghost es: Seq<(Seq<Syllable>, EntryModel)> = personality.dictionary.spec_entries();
        match self {
            Operation::Add(ingr, rel) => {
                if !personality.has_ingredient(ingr) {
                    return sandwich;
                }
                let mut s: Sandwich = sandwich;
                let total: usize = s.ingredients.len();
                let idx: Option<usize> = match rel {
                    Relative::Before(o) => find_name_index(&s.ingredients, &o.name),
                    Relative::After(o) => match find_name_index(&s.ingredients, &o.name) {
                        Some(x) => Some(x + 1),
                        None => None,
                    },
                    Relative::Top => Some(total),
                };
                match idx {
                    Some(x) => {
                        let ghost before: Seq<Ingredient> = s.ingredients@;
                        let copy: Ingredient = ingr.clone();
                        s.ingredients.insert(x, copy);
                        personality.use_ingredient(ingr);
                        proof {
                            assert(spec_names(before).len() == before.len());
                            assert(s.ingredients@ == before.insert(x as int, copy));
                            assert(s.ingredients@.len() == before.len() + 1);
                            assert forall|k: int|
                                0 <= k < spec_names(s.ingredients@).len() implies spec_names(
                                s.ingredients@,
                            )[k] == spec_names(before).insert(x as int, ingr.name@)[k] by {
                                assert(spec_names(s.ingredients@)[k] == s.ingredients@[k].name@);
                                if k < x {
                                    assert(before.insert(x as int, copy)[k] == before[k]);
                                    assert(spec_names(before)[k] == before[k].name@);
                                    assert(spec_names(before).insert(x as int, ingr.name@)[k]
                                        == spec_names(before)[k]);
                                } else if k > x {
                                    assert(before.insert(x as int, copy)[k] == before[k - 1]);
                                    assert(spec_names(before)[k - 1] == before[k - 1].name@);
                                    assert(spec_names(before).insert(x as int, ingr.name@)[k]
                                        == spec_names(before)[k - 1]);
                                } else {
                                    assert(before.insert(x as int, copy)[k] == copy);
                                    assert(spec_names(before).insert(x as int, ingr.name@)[k]
                                        == ingr.name@);
                                }
                            }
                            assert(spec_names(s.ingredients@) =~~= spec_names(before).insert(
                                x as int,
                                ingr.name@,
                            ));
                        }
                    },
                    None => {},
                }
                s
            },
            Operation::Remove(ingr) => {
                let mut s: Sandwich = sandwich;
                match find_name_index(&s.ingredients, &ingr.name) {
                    Some(x) => {
                        let ghost before: Seq<Ingredient> = s.ingredients@;
                        s.ingredients.remove(x);
                        proof {
                            assert(spec_names(before).len() == before.len());
                            assert(s.ingredients@ == before.remove(x as int));
                            assert(s.ingredients@.len() == before.len() - 1);
                            assert forall|k: int|
                                0 <= k < spec_names(s.ingredients@).len() implies spec_names(
                                s.ingredients@,
                            )[k] == spec_names(before).remove(x as int)[k] by {
                                assert(spec_names(s.ingredients@)[k] == s.ingredients@[k].name@);
                                if k < x {
                                    assert(before.remove(x as int)[k] == before[k]);
                                    assert(spec_names(before)[k] == before[k].name@);
                                    assert(spec_names(before).remove(x as int)[k] == spec_names(
                                        before,
                                    )[k]);
                                } else {
                                    assert(before.remove(x as int)[k] == before[k + 1]);
                                    assert(spec_names(before)[k + 1] == before[k + 1].name@);
                                    assert(spec_names(before).remove(x as int)[k] == spec_names(
                                        before,
                                    )[k + 1]);
                                }
                            }
                            assert(spec_names(s.ingredients@) =~~= spec_names(before).remove(
                                x as int,
                            ));
                        }
                    },
                    None => {},
                }
                s
            },
            Operation::RemoveAll(ingr) => {
                let mut s: Sandwich = sandwich;
                let mut kept: Vec<Ingredient> = Vec::new();
                let mut i: usize = 0;
                let ghost names: Seq<Seq<char>> = spec_names(s.ingredients@);
                proof {
                    assert(names.len() == s.ingredients@.len());
                    assert(names.take(0) =~~= Seq::<Seq<char>>::empty());
                    assert(spec_names(kept@) =~~= spec_without(names.take(0), ingr.name@));
                }
                while i < s.ingredients.len()
                    invariant
                        i <= s.ingredients@.len(),
                        names == spec_names(s.ingredients@),
                        names.len() == s.ingredients@.len(),
                        spec_names(kept@) == spec_without(names.take(i as int), ingr.name@),
                    decreases s.ingredients@.len() - i,
                {
                    proof {
                        assert(names[i as int] == s.ingredients@[i as int].name@);
                        assert(names.take(i + 1) =~~= names.take(i as int).push(names[i as int]));
                        lemma_without_snoc(names.take(i as int), names[i as int], ingr.name@);
                    }
                    if !(s.ingredients[i].name == ingr.name) {
                        let ghost before: Seq<Ingredient> = kept@;
                        let copy: Ingredient = s.ingredients[i].clone();
                        kept.push(copy);
                        proof {
                            assert(spec_names(before).len() == before.len());
                            assert forall|k: int|
                                0 <= k < spec_names(kept@).len() implies spec_names(kept@)[k] == (
                            spec_names(before) + seq![names[i as int]])[k] by {
                                assert(spec_names(kept@)[k] == kept@[k].name@);
                                if k < before.len() {
                                    assert(kept@[k] == before[k]);
                                    assert(spec_names(before)[k] == before[k].name@);
                                }
                            }
                            assert(spec_names(kept@) =~~= spec_names(before) + seq![
                                names[i as int],
                            ]);
                        }
                    } else {
                        proof {
                            assert(spec_names(kept@) + Seq::<Seq<char>>::empty() =~~= spec_names(
                                kept@,
                            ));
                        }
                    }
                    i = i + 1;
                }
                proof {
                    assert(names.take(names.len() as int) =~~= names);
                }
                s.ingredients = kept;
                s
            },
            Operation::Finish => {
                let mut s: Sandwich = sandwich;
                s.complete = true;
                s
            },
            Operation::Repeat(n, inner) => {
                let mut s: Sandwich = sandwich;
                let mut k: u32 = 0;
                proof {
                    assert(decreases_to!(*self => **inner));
                }
                while k < *n
                    invariant
                        k <= *n,
                        spec_state(s, *personality) == spec_apply_n(
                            spec_op_view(**inner),
                            k as int,
                            st0,
                            es,
                        ),
                        s.background_color@ == sandwich.background_color@,
                        *personality == (Personality {
                            inventory: personality.inventory,
                            cloud: personality.cloud,
                            ..*old(personality)
                        }),
                        es == personality.dictionary.spec_entries(),
                        st0 == spec_state(sandwich, *old(personality)),
                        decreases_to!(*self => **inner),
                    decreases *n - k,
                {
                    proof {
                        lemma_apply_n_step(spec_op_view(**inner), k as int, st0, es);
                    }
                    s = inner.apply(s, personality);
                    k = k + 1;
                }
                proof {
                    assert(spec_apply(self@, st0, es) == spec_apply_n(
                        spec_op_view(**inner),
                        *n as int,
                        st0,
                        es,
                    ));
                }
                s
            },
            Operation::Compound(a, b) => {
                proof {
                    assert(decreases_to!(*self => **a));
                    assert(decreases_to!(*self => **b));
                }
                let mid: Sandwich = a.apply(sandwich, personality);
                b.apply(mid, personality)
            },
            Operation::Ensure(ingr) => {
                let mut s: Sandwich = sandwich;
                match find_name_index(&s.ensured, &ingr.name) {
                    Some(_) => {
                        proof {
                            lemma_find_name_contains(spec_names(s.ensured@), ingr.name@);
                        }
                        s
                    },
                    None => {
                        proof {
                            lemma_find_name_contains(spec_names(s.ensured@), ingr.name@);
                        }
                        let ghost before: Seq<Ingredient> = s.ensured@;
                        let copy: Ingredient = ingr.clone();
                        s.ensured.push(copy);
                        proof {
                            assert(spec_names(before).len() == before.len());
                            assert forall|k: int|
                                0 <= k < spec_names(s.ensured@).len() implies spec_names(
                                s.ensured@,
                            )[k] == spec_names(before).push(ingr.name@)[k] by {
                                assert(spec_names(s.ensured@)[k] == s.ensured@[k].name@);
                                if k < before.len() {
                                    assert(s.ensured@[k] == before[k]);
                                    assert(spec_names(before)[k] == before[k].name@);
                                }
                            }
                            assert(spec_names(s.ensured@) =~~= spec_names(before).push(
                                ingr.name@,
                            ));
                        }
                        s
                    },
                }
            },
            Operation::Persist(inner) => {
                proof {
                    assert(decreases_to!(*self => **inner));
                }
                inner.apply(sandwich, personality)
            },
            Operation::Affirm => {
                let lex: Option<Vec<AnnotatedWord>> = match &personality.last_lex {
                    Some(v) => Some(clone_annotated(v)),
                    None => None,
                };
                match lex {
                    Some(words) => {
                        let ghost lexv: Seq<AnnotatedWordModel> =
                            crate::grammar::views_of_annotated(words@);
                        let mut i: usize = 0;
                        proof {
                            assert(lexv.len() == words@.len());
                            assert(lexv.skip(0) =~~= lexv);
                        }
                        while i < words.len()
                            invariant
                                i <= words@.len(),
                                lexv == crate::grammar::views_of_annotated(words@),
                                lexv.len() == words@.len(),
                                spec_affirm_lex(
                                    lexv.skip(i as int),
                                    spec_cloud_view(personality.cloud@),
                                    es,
                                ) == spec_affirm_lex(lexv, st0.cloud, es),
                                *personality == (Personality {
                                    cloud: personality.cloud,
                                    ..*old(personality)
                                }),
                                es == personality.dictionary.spec_entries(),
                                st0 == spec_state(sandwich, *old(personality)),
                            decreases words@.len() - i,
                        {
                            proof {
                                assert(lexv[i as int] == words@[i as int]@);
                                assert(lexv.skip(i as int)[0] == lexv[i as int]);
                                assert(lexv.skip(i as int).drop_first() =~~= lexv.skip(i + 1));
                            }
                            let has_entry: Option<WordFunction> = words[i].definition();
                            match has_entry {
                                Some(f) => {
                                    personality.improve_match(&words[i].word, f);
                                },
                                None => {},
                            }
                            i = i + 1;
                        }
                        proof {
                            assert(lexv.skip(lexv.len() as int) =~~= Seq::<
                                AnnotatedWordModel,
                            >::empty());
                        }
                        sandwich
                    },
                    None => sandwich,
                }
            },
            Operation::Negate => sandwich,
            Operation::CheckFor(_) => sandwich,
        }
    }
}

/// The reactive follow-up an operation asks for: an addition or an
/// availability question is answered from the responder's stock.
pub open spec fn spec_respond(m: OpModel, inv: Seq<(Seq<char>, int)>) -> Option<OpModel> {
    match m {
        OpModel::Add(n, _) => if spec_inv_count(inv, n) <= 0 {
            Some(OpModel::Remove(n))
        } else {
            None
        },
        OpModel::CheckFor(n) => if spec_inv_count(inv, n) <= 0 {
            Some(OpModel::Remove(n))
        } else {
            Some(OpModel::Ensure(n))
        },
        _ => None,
    }
}

/// Both word lists, or nothing if either is missing.
pub open spec fn spec_opt_cat(
    a: Option<Seq<AnnotatedWordModel>>,
    b: Option<Seq<AnnotatedWordModel>>,
) -> Option<Seq<AnnotatedWordModel>> {
    match (a, b) {
        (Some(x), Some(y)) => Some(x + y),
        _ => None,
    }
}

/// The annotated word encoding a grammatical category: the first dictionary
/// word carrying it, annotated with its own entry.
pub open spec fn spec_def_word(
    es: Seq<(Seq<Syllable>, EntryModel)>,
    f: WordFunction,
) -> Option<Seq<AnnotatedWordModel>> {
    match crate::grammar::spec_find_def(es, f) {
        Some(p) => Some(
            seq![AnnotatedWordModel { word: p.0, role: Some(p.1.role), entry: Some(p.1) }],
        ),
        None => None,
    }
}

/// The annotated word encoding a number: the first word denoting it.
pub open spec fn spec_num_word(es: Seq<(Seq<Syllable>, EntryModel)>, n: u32) -> Option<
    Seq<AnnotatedWordModel>,
> {
    match crate::grammar::spec_find_num(es, n) {
        Some(p) => Some(
            seq![AnnotatedWordModel { word: p.0, role: Some(p.1.role), entry: Some(p.1) }],
        ),
        None => None,
    }
}

/// The annotated word naming an ingredient: its morpheme-path word with the
/// synthesized noun entry.
pub open spec fn spec_ingr_word(tax: Ingredient, name: Seq<char>) -> Option<
    Seq<AnnotatedWordModel>,
> {
    match spec_word_for(tax, name) {
        Some(w) => Some(
            seq![
                AnnotatedWordModel {
                    word: w,
                    role: Some(WordRole::Noun),
                    entry: Some(
                        EntryModel {
                            function: WordFunction::Ingredient,
                            role: WordRole::Noun,
                            definition: name,
                        },
                    ),
                },
            ],
        ),
        None => None,
    }
}

/// The surface phrase of an operation, in each variant's fixed word order.
/// Missing dictionary words or taxonomy names make the whole encoding fail.
pub open spec fn spec_encode(
    m: OpModel,
    es: Seq<(Seq<Syllable>, EntryModel)>,
    tax: Ingredient,
) -> Option<Seq<AnnotatedWordModel>>
    decreases m,
{
    match m {
        OpModel::Add(n, rel) => {
            let core = spec_opt_cat(
                spec_ingr_word(tax, n),
                spec_def_word(es, WordFunction::Desire),
            );
            match rel {
                RelModel::Before(o) => spec_opt_cat(
                    spec_opt_cat(spec_ingr_word(tax, o), spec_def_word(es, WordFunction::Before)),
                    core,
                ),
                RelModel::After(o) => spec_opt_cat(
                    spec_opt_cat(spec_ingr_word(tax, o), spec_def_word(es, WordFunction::After)),
                    core,
                ),
                RelModel::Top => core,
            }
        },
        OpModel::Remove(n) => spec_opt_cat(
            spec_def_word(es, WordFunction::Negation),
            spec_opt_cat(spec_ingr_word(tax, n), spec_def_word(es, WordFunction::Desire)),
        ),
        OpModel::RemoveAll(n) => spec_opt_cat(
            spec_def_word(es, WordFunction::Ever),
            spec_opt_cat(
                spec_def_word(es, WordFunction::Negation),
                spec_opt_cat(spec_ingr_word(tax, n), spec_def_word(es, WordFunction::Desire)),
            ),
        ),
        OpModel::Finish => spec_def_word(es, WordFunction::Greeting),
        OpModel::Repeat(n, inner) => spec_opt_cat(
            spec_num_word(es, n as u32),
            spec_encode(*inner, es, tax),
        ),
        OpModel::Compound(a, b) => spec_opt_cat(
            spec_encode(*a, es, tax),
            spec_opt_cat(spec_def_word(es, WordFunction::And), spec_encode(*b, es, tax)),
        ),
        OpModel::Ensure(n) => spec_opt_cat(
            spec_ingr_word(tax, n),
            spec_def_word(es, WordFunction::Have),
        ),
        OpModel::Persist(inner) => spec_opt_cat(
            spec_def_word(es, WordFunction::Ever),
            spec_encode(*inner, es, tax),
        ),
        OpModel::Affirm => spec_def_word(es, WordFunction::Affirmation),
        OpModel::Negate => spec_def_word(es, WordFunction::Negation),
        OpModel::CheckFor(n) => spec_opt_cat(
            spec_def_word(es, WordFunction::Question),
            spec_opt_cat(spec_ingr_word(tax, n), spec_def_word(es, WordFunction::Have)),
        ),
    }
}

/// Appends a phrase to another, view for view.
fn append_annotated(dst: &mut Vec<AnnotatedWord>, src: Vec<AnnotatedWord>)
    ensures
        crate::grammar::views_of_annotated(final(dst)@) == crate::grammar::views_of_annotated(
            old(dst)@,
        ) + crate::grammar::views_of_annotated(src@),
{
    let ghost sv: Seq<AnnotatedWordModel> = crate::grammar::views_of_annotated(src@);
    let mut i: usize = 0;
    proof {
        assert(sv.len() == src@.len());
        assert(crate::grammar::views_of_annotated(dst@) + sv.take(0)
            =~~= crate::grammar::views_of_annotated(dst@));
    }
    while i < src.len()
        invariant
            i <= src@.len(),
            sv == crate::grammar::views_of_annotated(src@),
            sv.len() == src@.len(),
            crate::grammar::views_of_annotated(dst@) == crate::grammar::views_of_annotated(
                old(dst)@,
            ) + sv.take(i as int),
        decreases src@.len() - i,
    {
        let ghost before: Seq<AnnotatedWord> = dst@;
        dst.push(src[i].clone());
        proof {
            assert(sv[i as int] == src@[i as int]@);
            assert(crate::grammar::views_of_annotated(before).len() == before.len());
            assert forall|x: int|
                0 <= x < crate::grammar::views_of_annotated(dst@).len() implies
                crate::grammar::views_of_annotated(dst@)[x] == (crate::grammar::views_of_annotated(
                old(dst)@,
            ) + sv.take(i + 1))[x] by {
                assert(crate::grammar::views_of_annotated(dst@)[x] == dst@[x]@);
                if x < before.len() {
                    assert(dst@[x] == before[x]);
                    assert(crate::grammar::views_of_annotated(before)[x] == before[x]@);
                }
            }
            assert(crate::grammar::views_of_annotated(dst@) =~~= crate::grammar::views_of_annotated(
                old(dst)@,
            ) + sv.take(i + 1));
        }
        i = i + 1;
    }
    proof {
        assert(sv.take(sv.len() as int) =~~= sv);
    }
}

impl Operation {
    /// The reactive follow-up to this operation, from the responder's
    /// stock: a requested or asked-about ingredient that is out of stock
    /// answers with its removal; an availability question with stock
    /// answers with a confirmation.
    pub fn respond(&self, personality: &Personality) -> (r: Option<Operation>)
        ensures
            match r {
                Some(op) => spec_respond(self@, spec_inv_view(personality.inventory@)) == Some(
                    op@,
                ),
                None => spec_respond(self@, spec_inv_view(personality.inventory@)) is None,
            },
    {
        match self {
            Operation::Add(i, _) => {
                if !personality.has_ingredient(i) {
                    Some(Operation::Remove(i.clone()))
                } else {
                    None
                }
            },
            Operation::CheckFor(i) => {
                if !personality.has_ingredient(i) {
                    Some(Operation::Remove(i.clone()))
                } else {
                    Some(Operation::Ensure(i.clone()))
                }
            },
            _ => None,
        }
    }

    /// Renders the operation into surface words through the lexicon, in its
    /// variant's fixed word order. `None` when the lexicon is missing a
    /// needed word or the taxonomy a needed name.
    pub fn encode(&self, lang: &Personality) -> (r: Option<Vec<AnnotatedWord>>)
        ensures
            match r {
                Some(ph) => spec_encode(
                    self@,
                    lang.dictionary.spec_entries(),
                    lang.dictionary.ingredients,
                ) == Some(crate::grammar::views_of_annotated(ph@)),
                None => spec_encode(
                    self@,
                    lang.dictionary.spec_entries(),
                    lang.dictionary.ingredients,
                ) is None,
            },
        decreases *self,
    {
        let ghost es: Seq<(Seq<Syllable>, EntryModel)> = lang.dictionary.spec_entries();
        let ghost tax: Ingredient = lang.dictionary.ingredients;
        match self {
            Operation::Add(ingr, rel) => {
                let mut out: Vec<AnnotatedWord> = Vec::new();
                match rel {
                    Relative::Top => {},
                    Relative::Before(o) => {
                        let ow: AnnotatedWord = match lang.dictionary.ingredients.to_annotated_word(
                            o,
                        ) {
                            Some(aw) => aw,
                            None => {
                                return None;
                            },
                        };
                        let pw: AnnotatedWord = match lang.dictionary.annotated_word_for_def(
                            WordFunction::Before,
                        ) {
                            Some(aw) => aw,
                            None => {
                                return None;
                            },
                        };
                        out.push(ow);
                        out.push(pw);
                    },
                    Relative::After(o) => {
                        let ow: AnnotatedWord = match lang.dictionary.ingredients.to_annotated_word(
                            o,
                        ) {
                            Some(aw) => aw,
                            None => {
                                return None;
                            },
                        };
                        let pw: AnnotatedWord = match lang.dictionary.annotated_word_for_def(
                            WordFunction::After,
                        ) {
                            Some(aw) => aw,
                            None => {
                                return None;
                            },
                        };
                        out.push(ow);
                        out.push(pw);
                    },
                }
                let iw: AnnotatedWord = match lang.dictionary.ingredients.to_annotated_word(ingr) {
                    Some(aw) => aw,
                    None => {
                        return None;
                    },
                };
                let vw: AnnotatedWord = match lang.dictionary.annotated_word_for_def(
                    WordFunction::Desire,
                ) {
                    Some(aw) => aw,
                    None => {
                        return None;
                    },
                };
                out.push(iw);
                out.push(vw);
                proof {
                    lemma_views_concrete(out@);
                }
                Some(out)
            },
            Operation::Remove(ingr) => {
                let nw: AnnotatedWord = match lang.dictionary.annotated_word_for_def(
                    WordFunction::Negation,
                ) {
                    Some(aw) => aw,
                    None => {
                        return None;
                    },
                };
                let iw: AnnotatedWord = match lang.dictionary.ingredients.to_annotated_word(ingr) {
                    Some(aw) => aw,
                    None => {
                        return None;
                    },
                };
                let vw: AnnotatedWord = match lang.dictionary.annotated_word_for_def(
                    WordFunction::Desire,
                ) {
                    Some(aw) => aw,
                    None => {
                        return None;
                    },
                };
                let mut out: Vec<AnnotatedWord> = Vec::new();
                out.push(nw);
                out.push(iw);
                out.push(vw);
                proof {
                    lemma_views_concrete(out@);
                }
                Some(out)
            },
            Operation::RemoveAll(ingr) => {
                let ew: AnnotatedWord = match lang.dictionary.annotated_word_for_def(
                    WordFunction::Ever,
                ) {
                    Some(aw) => aw,
                    None => {
                        return None;
                    },
                };
                let nw: AnnotatedWord = match lang.dictionary.annotated_word_for_def(
                    WordFunction::Negation,
                ) {
                    Some(aw) => aw,
                    None => {
                        return None;
                    },
                };
                let iw: AnnotatedWord = match lang.dictionary.ingredients.to_annotated_word(ingr) {
                    Some(aw) => aw,
                    None => {
                        return None;
                    },
                };
                let vw: AnnotatedWord = match lang.dictionary.annotated_word_for_def(
                    WordFunction::Desire,
                ) {
                    Some(aw) => aw,
                    None => {
                        return None;
                    },
                };
                let mut out: Vec<AnnotatedWord> = Vec::new();
                out.push(ew);
                out.push(nw);
                out.push(iw);
                out.push(vw);
                proof {
                    lemma_views_concrete(out@);
                }
                Some(out)
            },
            Operation::Finish => {
                let gw: AnnotatedWord = match lang.dictionary.annotated_word_for_def(
                    WordFunction::Greeting,
                ) {
                    Some(aw) => aw,
                    None => {
                        return None;
                    },
                };
                let mut out: Vec<AnnotatedWord> = Vec::new();
                out.push(gw);
                proof {
                    lemma_views_concrete(out@);
                }
                Some(out)
            },
            Operation::Repeat(n, inner) => {
                proof {
                    assert(decreases_to!(*self => **inner));
                }
                let numw: AnnotatedWord = match lang.dictionary.annotated_word_for_num(*n) {
                    Some(aw) => aw,
                    None => {
                        return None;
                    },
                };
                let tail: Vec<AnnotatedWord> = match inner.encode(lang) {
                    Some(v) => v,
                    None => {
                        return None;
                    },
                };
                let mut out: Vec<AnnotatedWord> = Vec::new();
                out.push(numw);
                append_annotated(&mut out, tail);
                proof {
                    lemma_views_concrete(out@);
                }
                Some(out)
            },
            Operation::Compound(a, b) => {
                proof {
                    assert(decreases_to!(*self => **a));
                    assert(decreases_to!(*self => **b));
                }
                let mut out: Vec<AnnotatedWord> = match a.encode(lang) {
                    Some(v) => v,
                    None => {
                        return None;
                    },
                };
                let cw: AnnotatedWord = match lang.dictionary.annotated_word_for_def(
                    WordFunction::And,
                ) {
                    Some(aw) => aw,
                    None => {
                        return None;
                    },
                };
                let tail: Vec<AnnotatedWord> = match b.encode(lang) {
                    Some(v) => v,
                    None => {
                        return None;
                    },
                };
                let ghost av: Seq<AnnotatedWordModel> = crate::grammar::views_of_annotated(out@);
                let ghost cv: AnnotatedWordModel = cw@;
                out.push(cw);
                proof {
                    lemma_views_push(out@, av, cv);
                }
                append_annotated(&mut out, tail);
                proof {
                    assert((av + seq![cv]) + crate::grammar::views_of_annotated(tail@) =~~= av + (
                    seq![cv] + crate::grammar::views_of_annotated(tail@)));
                }
                Some(out)
            },
            Operation::Ensure(ingr) => {
                let iw: AnnotatedWord = match lang.dictionary.ingredients.to_annotated_word(ingr) {
                    Some(aw) => aw,
                    None => {
                        return None;
                    },
                };
                let hw: AnnotatedWord = match lang.dictionary.annotated_word_for_def(
                    WordFunction::Have,
                ) {
                    Some(aw) => aw,
                    None => {
                        return None;
                    },
                };
                let mut out: Vec<AnnotatedWord> = Vec::new();
                out.push(iw);
                out.push(hw);
                proof {
                    lemma_views_concrete(out@);
                }
                Some(out)
            },
            Operation::Persist(inner) => {
                proof {
                    assert(decreases_to!(*self => **inner));
                }
                let ew: AnnotatedWord = match lang.dictionary.annotated_word_for_def(
                    WordFunction::Ever,
                ) {
                    Some(aw) => aw,
                    None => {
                        return None;
                    },
                };
                let tail: Vec<AnnotatedWord> = match inner.encode(lang) {
                    Some(v) => v,
                    None => {
                        return None;
                    },
                };
                let mut out: Vec<AnnotatedWord> = Vec::new();
                out.push(ew);
                append_annotated(&mut out, tail);
                proof {
                    lemma_views_concrete(out@);
                }
                Some(out)
            },
            Operation::Affirm => {
                let aw: AnnotatedWord = match lang.dictionary.annotated_word_for_def(
                    WordFunction::Affirmation,
                ) {
                    Some(aw) => aw,
                    None => {
                        return None;
                    },
                };
                let mut out: Vec<AnnotatedWord> = Vec::new();
                out.push(aw);
                proof {
                    lemma_views_concrete(out@);
                }
                Some(out)
            },
            Operation::Negate => {
                let nw: AnnotatedWord = match lang.dictionary.annotated_word_for_def(
                    WordFunction::Negation,
                ) {
                    Some(aw) => aw,
                    None => {
                        return None;
                    },
                };
                let mut out: Vec<AnnotatedWord> = Vec::new();
                out.push(nw);
                proof {
                    lemma_views_concrete(out@);
                }
                Some(out)
            },
            Operation::CheckFor(ingr) => {
                let qw: AnnotatedWord = match lang.dictionary.annotated_word_for_def(
                    WordFunction::Question,
                ) {
                    Some(aw) => aw,
                    None => {
                        return None;
                    },
                };
                let iw: AnnotatedWord = match lang.dictionary.ingredients.to_annotated_word(ingr) {
                    Some(aw) => aw,
                    None => {
                        return None;
                    },
                };
                let hw: AnnotatedWord = match lang.dictionary.annotated_word_for_def(
                    WordFunction::Have,
                ) {
                    Some(aw) => aw,
                    None => {
                        return None;
                    },
                };
                let mut out: Vec<AnnotatedWord> = Vec::new();
                out.push(qw);
                out.push(iw);
                out.push(hw);
                proof {
                    lemma_views_concrete(out@);
                }
                Some(out)
            },
        }
    }
}

/// Unfolds the view of a short concrete word list, element by element.
proof fn lemma_views_concrete(v: Seq<AnnotatedWord>)
    ensures
        crate::grammar::views_of_annotated(v).len() == v.len(),
        forall|k: int|
            0 <= k < v.len() ==> crate::grammar::views_of_annotated(v)[k] == (#[trigger] v[k])@,
{
}

/// A push on words is a push on their views.
proof fn lemma_views_push(v: Seq<AnnotatedWord>, av: Seq<AnnotatedWordModel>, cv: AnnotatedWordModel)
    requires
        v.len() == av.len() + 1,
        forall|k: int| 0 <= k < av.len() ==> (#[trigger] v[k])@ == av[k],
        v[av.len() as int]@ == cv,
    ensures
        crate::grammar::views_of_annotated(v) == av + seq![cv],
{
    assert forall|k: int|
        0 <= k < crate::grammar::views_of_annotated(v).len() implies crate::grammar::views_of_annotated(
        v,
    )[k] == (av + seq![cv])[k] by {
        assert(crate::grammar::views_of_annotated(v)[k] == v[k]@);
    }
    assert(crate::grammar::views_of_annotated(v) =~~= av + seq![cv]);
}

/// Drawing down one unit leaves one fewer.
pub proof fn lemma_inv_dec_count(inv: Seq<(Seq<char>, int)>, name: Seq<char>)
    requires
        spec_inv_count(inv, name) > 0,
    ensures
        spec_inv_count(spec_inv_dec(inv, name), name) == spec_inv_count(inv, name) - 1,
    decreases inv.len(),
{
    if inv.len() > 0 {
        if inv[0].0 == name {
            assert(spec_inv_dec(inv, name) == seq![(inv[0].0, inv[0].1 - 1)] + inv.drop_first());
            assert(spec_inv_dec(inv, name)[0] == (inv[0].0, inv[0].1 - 1));
            assert(spec_inv_dec(inv, name).drop_first() =~~= inv.drop_first());
        } else {
            lemma_inv_dec_count(inv.drop_first(), name);
            assert(spec_inv_dec(inv, name) == seq![inv[0]] + spec_inv_dec(
                inv.drop_first(),
                name,
            ));
            assert(spec_inv_dec(inv, name)[0] == inv[0]);
            assert(spec_inv_dec(inv, name).drop_first() =~~= spec_inv_dec(
                inv.drop_first(),
                name,
            ));
        }
    }
}

/// Removing an absent ingredient is a no-op.
pub proof fn lemma_remove_absent(
    name: Seq<char>,
    st: ApplyState,
    es: Seq<(Seq<Syllable>, EntryModel)>,
)
    requires
        spec_find_name(st.ingredients, name) is None,
    ensures
        spec_apply(OpModel::Remove(name), st, es) == st,
{
}

/// Adding on top twice stacks two occurrences, given stock for both: the
/// operations are deliberately not idempotent.
pub proof fn lemma_add_twice(
    name: Seq<char>,
    st: ApplyState,
    es: Seq<(Seq<Syllable>, EntryModel)>,
)
    requires
        spec_inv_count(st.inventory, name) >= 2,
    ensures
        spec_apply(
            OpModel::Add(name, RelModel::Top),
            spec_apply(OpModel::Add(name, RelModel::Top), st, es),
            es,
        ).ingredients == st.ingredients.push(name).push(name),
{
    let st1 = spec_apply(OpModel::Add(name, RelModel::Top), st, es);
    assert(st1.ingredients =~~= st.ingredients.push(name));
    lemma_inv_dec_count(st.inventory, name);
    let st2 = spec_apply(OpModel::Add(name, RelModel::Top), st1, es);
    assert(st2.ingredients =~~= st1.ingredients.push(name));
}

/// Confirming an ingredient is idempotent: the second confirmation changes
/// nothing, unlike a second addition.
pub proof fn lemma_ensure_idempotent(
    name: Seq<char>,
    st: ApplyState,
    es: Seq<(Seq<Syllable>, EntryModel)>,
)
    ensures
        spec_apply(
            OpModel::Ensure(name),
            spec_apply(OpModel::Ensure(name), st, es),
            es,
        ) == spec_apply(OpModel::Ensure(name), st, es),
{
    let st1 = spec_apply(OpModel::Ensure(name), st, es);
    if !st.ensured.contains(name) {
        assert(st1.ensured == st.ensured.push(name));
        assert(st1.ensured[st.ensured.len() as int] == name);
        assert(st1.ensured.contains(name));
    } else {
        assert(st1.ensured.contains(name));
    }
}

/// One more round of the repeated application.
proof fn lemma_apply_n_step(
    inner: OpModel,
    k: int,
    st: ApplyState,
    es: Seq<(Seq<Syllable>, EntryModel)>,
)
    requires
        k >= 0,
    ensures
        spec_apply_n(inner, k + 1, st, es) == spec_apply(
            inner,
            spec_apply_n(inner, k, st, es),
            es,
        ),
    decreases k,
{
    assert(spec_apply_n(inner, k + 1, st, es) == spec_apply_n(
        inner,
        k,
        spec_apply(inner, st, es),
        es,
    ));
    if k == 0 {
        assert(spec_apply_n(inner, 0, spec_apply(inner, st, es), es) == spec_apply(
            inner,
            st,
            es,
        ));
        assert(spec_apply_n(inner, 0, st, es) == st);
    } else {
        lemma_apply_n_step(inner, k - 1, spec_apply(inner, st, es), es);
        assert(spec_apply_n(inner, k, st, es) == spec_apply_n(
            inner,
            k - 1,
            spec_apply(inner, st, es),
            es,
        ));
    }
}

/// The search result agrees with membership.
proof fn lemma_find_name_contains(s: Seq<Seq<char>>, name: Seq<char>)
    ensures
        (spec_find_name(s, name) is Some) == s.contains(name),
    decreases s.len(),
{
    if s.len() > 0 {
        lemma_find_name_contains(s.drop_first(), name);
        if s[0] == name {
            assert(s.contains(name)) by {
                assert(s[0] == name);
            }
        } else {
            if s.drop_first().contains(name) {
                let j: int = choose|j: int|
                    0 <= j < s.drop_first().len() && s.drop_first()[j] == name;
                assert(s[j + 1] == name);
                assert(s.contains(name));
            }
            if s.contains(name) {
                let j: int = choose|j: int| 0 <= j < s.len() && s[j] == name;
                assert(j != 0);
                assert(s.drop_first()[j - 1] == name);
                assert(s.drop_first().contains(name));
            }
        }
    }
}

/// The question form of an operation.
pub open spec fn spec_question(m: OpModel) -> Option<OpModel> {
    match m {
        OpModel::Add(n, _) => Some(OpModel::CheckFor(n)),
        OpModel::Ensure(n) => Some(OpModel::CheckFor(n)),
        OpModel::CheckFor(n) => Some(OpModel::Add(n, RelModel::Top)),
        _ => None,
    }
}

/// The plain field-wise sum of two tallies.
pub open spec fn spec_add_language(a: LanguageModel, b: LanguageModel) -> LanguageModel {
    LanguageModel {
        adverbs: a.adverbs + b.adverbs,
        adverb_side: a.adverb_side + b.adverb_side,
        adposition: a.adposition + b.adposition,
        conjunction: a.conjunction + b.conjunction,
        numbers: a.numbers + b.numbers,
    }
}

/// Every count in a tally is nonnegative.
pub proof fn lemma_skills_nonneg(m: OpModel)
    ensures
        spec_skills(m).adverbs >= 0,
        spec_skills(m).adverb_side >= 0,
        spec_skills(m).adposition >= 0,
        spec_skills(m).conjunction >= 0,
        spec_skills(m).numbers >= 0,
    decreases m,
{
    match m {
        OpModel::Repeat(_, inner) => lemma_skills_nonneg(*inner),
        OpModel::Compound(a, b) => {
            lemma_skills_nonneg(*a);
            lemma_skills_nonneg(*b);
        },
        OpModel::Persist(inner) => lemma_skills_nonneg(*inner),
        _ => {},
    }
}

/// The reverse involution: for plain removals, plain top additions, and
/// their persistent wrappings, reversing twice gives back the very same
/// operation, so in particular the same apply effect. A positional
/// addition is the one exception: its reverse forgets the position.
pub proof fn lemma_reverse_involution(m: OpModel)
    requires
        spec_involutive(m),
    ensures
        spec_reverse(spec_reverse(m)) == m,
    decreases m,
{
    match m {
        OpModel::Persist(inner) => lemma_reverse_involution(*inner),
        _ => {},
    }
}

/// The shapes whose reverse is a true involution: removals, top additions,
/// and persistent wrappings of such.
pub open spec fn spec_involutive(m: OpModel) -> bool
    decreases m,
{
    match m {
        OpModel::Add(_, rel) => rel is Top,
        OpModel::Remove(_) => true,
        OpModel::Persist(inner) => spec_involutive(*inner),
        _ => false,
    }
}

} // verus!

verus! {

/// Whether every name in the first list appears somewhere in the second.
pub open spec fn spec_all_in(d: Seq<Seq<char>>, r: Seq<Seq<char>>) -> bool {
    forall|k: int| 0 <= k < d.len() ==> r.contains(#[trigger] d[k])
}

/// The greatest index below `upto` whose name appears in the result, or
/// minus one.
pub open spec fn spec_last_shared(d: Seq<Seq<char>>, r: Seq<Seq<char>>, upto: int) -> int
    decreases upto,
    when upto >= 0
{
    if upto <= 0 {
        -1
    } else if r.contains(d[upto - 1]) {
        upto - 1
    } else {
        spec_last_shared(d, r, upto - 1)
    }
}

/// One past the last desired position already present in the result.
pub open spec fn spec_next_index(d: Seq<Seq<char>>, r: Seq<Seq<char>>) -> int {
    spec_last_shared(d, r, d.len() as int) + 1
}

/// The first name in the result that was never asked for.
pub open spec fn spec_first_extra(r: Seq<Seq<char>>, d: Seq<Seq<char>>) -> Option<Seq<char>>
    decreases r.len(),
{
    if r.len() == 0 {
        None
    } else if !d.contains(r[0]) {
        Some(r[0])
    } else {
        spec_first_extra(r.drop_first(), d)
    }
}

/// The operation a fully plain agent picks: no shyness, forgetting,
/// spontaneity, allergies, or positional and numeric skill. The base goes
/// first, an unasked-for extra is removed, and otherwise the next desired
/// ingredient goes on top, until everything desired is present.
pub open spec fn spec_plain_pick(d: Seq<Seq<char>>, r: Seq<Seq<char>>) -> Option<OpModel> {
    let next = spec_next_index(d, r);
    if next == 0 {
        Some(OpModel::Add(d[0], RelModel::Top))
    } else {
        match spec_first_extra(r, d) {
            Some(x) => Some(OpModel::Remove(x)),
            None => {
                if next < d.len() {
                    Some(OpModel::Add(d[next], RelModel::Top))
                } else {
                    None
                }
            },
        }
    }
}

/// Whether an agent is plain in the sense of [`spec_plain_pick`].
pub open spec fn spec_plain_agent(p: Personality) -> bool {
    p.shyness == 0 && p.forgetfulness == 0 && p.spontaneity == 0 && p.allergies@.len() == 0
        && p.adposition == 0 && p.numbers == 0 && p.adverbs == 0
}

/// Whether an ingredient list holds the given name.
fn contains_name(v: &Vec<Ingredient>, name: &String) -> (r: bool)
    ensures
        r == spec_names(v@).contains(name@),
{
    let mut i: usize = 0;
    proof {
        assert(spec_names(v@).len() == v@.len());
    }
    while i < v.len()
        invariant
            i <= v@.len(),
            forall|k: int| 0 <= k < i ==> spec_names(v@)[k] != name@,
        decreases v@.len() - i,
    {
        proof {
            assert(spec_names(v@)[i as int] == v@[i as int].name@);
        }
        if v[i].name == *name {
            proof {
                assert(spec_names(v@).contains(name@)) by {
                    assert(spec_names(v@)[i as int] == name@);
                }
            }
            return true;
        }
        i = i + 1;
    }
    proof {
        assert(!spec_names(v@).contains(name@)) by {
            if spec_names(v@).contains(name@) {
                let k: int = choose|k: int|
                    0 <= k < spec_names(v@).len() && spec_names(v@)[k] == name@;
            }
        }
    }
    false
}

/// Whether every ingredient of the first list appears in the second.
fn all_contained(d: &Vec<Ingredient>, r: &Vec<Ingredient>) -> (res: bool)
    ensures
        res == spec_all_in(spec_names(d@), spec_names(r@)),
{
    let mut i: usize = 0;
    proof {
        assert(spec_names(d@).len() == d@.len());
    }
    while i < d.len()
        invariant
            i <= d@.len(),
            forall|k: int| 0 <= k < i ==> spec_names(r@).contains(#[trigger] spec_names(d@)[k]),
        decreases d@.len() - i,
    {
        proof {
            assert(spec_names(d@)[i as int] == d@[i as int].name@);
        }
        if !contains_name(r, &d[i].name) {
            return false;
        }
        i = i + 1;
    }
    true
}

/// Whether two ingredient lists carry the same names in the same order.
pub fn names_equal(a: &Vec<Ingredient>, b: &Vec<Ingredient>) -> (r: bool)
    ensures
        r == (spec_names(a@) == spec_names(b@)),
{
    proof {
        assert(spec_names(a@).len() == a@.len());
        assert(spec_names(b@).len() == b@.len());
    }
    if a.len() != b.len() {
        return false;
    }
    let mut i: usize = 0;
    while i < a.len()
        invariant
            i <= a@.len(),
            a@.len() == b@.len(),
            forall|k: int| 0 <= k < i ==> spec_names(a@)[k] == spec_names(b@)[k],
        decreases a@.len() - i,
    {
        proof {
            assert(spec_names(a@)[i as int] == a@[i as int].name@);
            assert(spec_names(b@)[i as int] == b@[i as int].name@);
        }
        if !(a[i].name == b[i].name) {
            return false;
        }
        i = i + 1;
    }
    proof {
        assert(spec_names(a@) =~~= spec_names(b@));
    }
    true
}

/// A negotiation session: the sandwich this side wants, the operations it
/// has sent, the last sandwich it saw, and the standing edits it re-applies
/// every turn.
#[derive(Debug)]
pub struct Order {
    pub desired: Sandwich,
    /// The operations sent so far, oldest first.
    pub history: Vec<Operation>,
    pub last_result: Option<Sandwich>,
    pub persistent_ops: Vec<Operation>,
}

impl Order {
    /// A fresh session: the desired sandwich is generated from the agent's
    /// tastes, and nothing has been sent or seen. `None` when the agent's
    /// taxonomy cannot produce a sandwich — or, because the session asks
    /// for several fillings, when the random fill draws come up short; with
    /// a fill target above one no narrower failure condition can be
    /// promised, so the generator itself carries the exact one.
    pub fn new(lang: &Personality, rng: &mut Entropy) -> (r: Option<Order>)
        ensures
            match r {
                Some(o) => o.history@.len() == 0 && o.persistent_ops@.len() == 0 && o.last_result
                    is None && o.desired.ingredients@.len() >= 2 && o.desired.complete,
                None => true,
            },
    {
        match lang.gen_sandwich(7, rng) {
            Some(desired) => Some(
                Order {
                    desired,
                    history: Vec::new(),
                    last_result: None,
                    persistent_ops: Vec::new(),
                },
            ),
            None => None,
        }
    }

    /// Archives one sent operation.
    pub fn archive(&mut self, op: Operation)
        ensures
            final(self).history@ == old(self).history@.push(op),
            *final(self) == (Order { history: final(self).history, ..*old(self) }),
    {
        self.history.push(op);
    }

    /// The most recently sent operation.
    pub fn last_op(&self) -> (r: Option<&Operation>)
        ensures
            match r {
                Some(op) => self.history@.len() > 0 && *op == self.history@.last(),
                None => self.history@.len() == 0,
            },
    {
        if self.history.len() == 0 {
            None
        } else {
            Some(&self.history[self.history.len() - 1])
        }
    }

    /// Whether the last operation did what it was meant to: re-applying it
    /// to the last seen sandwich must change something, and the change must
    /// match the newly observed result exactly. The imagined application
    /// spends the same stock the real one would.
    pub fn last_op_successful(&self, personality: &mut Personality, result: &Sandwich) -> (r:
        bool)
        ensures
            self.history@.len() == 0 || self.last_result is None ==> r == false
                && *final(personality) == *old(personality),
            self.history@.len() > 0 && self.last_result is Some ==> ({
                let st0 = spec_state(self.last_result->Some_0, *old(personality));
                let st1 = spec_apply(
                    self.history@.last()@,
                    st0,
                    old(personality).dictionary.spec_entries(),
                );
                r == (st0.ingredients != st1.ingredients && st1.ingredients == spec_names(
                    result.ingredients@,
                )) && spec_inv_view(final(personality).inventory@) == st1.inventory
                    && crate::behavior::personality::spec_cloud_view(final(personality).cloud@)
                    == st1.cloud && *final(personality) == (Personality {
                    inventory: final(personality).inventory,
                    cloud: final(personality).cloud,
                    ..*old(personality)
                })
            }),
    {
        if self.history.len() == 0 {
            return false;
        }
        let op: &Operation = &self.history[self.history.len() - 1];
        match &self.last_result {
            None => false,
            Some(last_res) => {
                let imagined: Sandwich = op.apply(last_res.clone(), personality);
                let changed: bool = !names_equal(&last_res.ingredients, &imagined.ingredients);
                let agrees: bool = names_equal(&imagined.ingredients, &result.ingredients);
                changed && agrees
            },
        }
    }

    /// Whether the last operation was a question that provoked a change:
    /// re-applying it to the last seen sandwich changes nothing, yet the
    /// observed result differs. The imagined application spends the same
    /// stock the real one would.
    pub fn last_question_failed(&self, personality: &mut Personality, result: &Sandwich) -> (r:
        bool)
        ensures
            self.history@.len() == 0 || self.last_result is None ==> r == false
                && *final(personality) == *old(personality),
            self.history@.len() > 0 && self.last_result is Some ==> ({
                let st0 = spec_state(self.last_result->Some_0, *old(personality));
                let st1 = spec_apply(
                    self.history@.last()@,
                    st0,
                    old(personality).dictionary.spec_entries(),
                );
                r == (st0.ingredients == st1.ingredients && st1.ingredients != spec_names(
                    result.ingredients@,
                )) && spec_inv_view(final(personality).inventory@) == st1.inventory
                    && crate::behavior::personality::spec_cloud_view(final(personality).cloud@)
                    == st1.cloud && *final(personality) == (Personality {
                    inventory: final(personality).inventory,
                    cloud: final(personality).cloud,
                    ..*old(personality)
                })
            }),
    {
        if self.history.len() == 0 {
            return false;
        }
        let op: &Operation = &self.history[self.history.len() - 1];
        match &self.last_result {
            None => false,
            Some(last_res) => {
                let imagined: Sandwich = op.apply(last_res.clone(), personality);
                let is_question: bool = names_equal(&last_res.ingredients, &imagined.ingredients);
                let differs: bool = !names_equal(&imagined.ingredients, &result.ingredients);
                is_question && differs
            },
        }
    }
}

impl Order {
    /// Chooses the next request from the conversation state: finish when
    /// everything desired is present; put the base down first; have an
    /// unasked-for extra removed unless shyness wins; correct an earlier
    /// omission with a positional addition when the adposition skill
    /// allows; have an allergen removed when severity and courage allow;
    /// sometimes splice a missing favorite into the desires and order it on
    /// the spot; and by default add the next
    /// desired ingredient on top, asking after its availability or
    /// batching equal neighbors as the mood and skills allow. For a fully
    /// plain agent the choice is exactly [`spec_plain_pick`].
    pub fn pick_op(
        &mut self,
        personality: &Personality,
        result: &Sandwich,
        rng: &mut Entropy,
    ) -> (r: Option<Operation>)
        ensures
            final(self).last_result is Some && spec_names(
                final(self).last_result->Some_0.ingredients@,
            ) == spec_names(result.ingredients@),
            final(self).desired.ensured == old(self).desired.ensured,
            final(self).desired.complete == old(self).desired.complete,
            personality.spontaneity == 0 ==> final(self).desired == old(self).desired,
            final(self).desired == old(self).desired || (r is Some && (match r->Some_0@ {
                OpModel::Add(n, rel) => rel is Top && spec_names(final(self).desired.ingredients@)
                    == spec_names(old(self).desired.ingredients@).push(n) && (exists|j: int|
                    0 <= j < personality.preferences@.len() && (
                    #[trigger] personality.preferences@[j]).ingredient.name@ == n),
                _ => false,
            })),
            final(self).history == old(self).history,
            final(self).persistent_ops == old(self).persistent_ops,
            spec_all_in(
                spec_names(old(self).desired.ingredients@),
                spec_names(result.ingredients@),
            ) ==> r is None,
            r is Some ==> !spec_all_in(
                spec_names(old(self).desired.ingredients@),
                spec_names(result.ingredients@),
            ),
            ({
                let d = spec_names(old(self).desired.ingredients@);
                let rs = spec_names(result.ingredients@);
                d.len() > 0 && (forall|k: int| 0 <= k < d.len() ==> !rs.contains(#[trigger] d[k]))
                    ==> r is Some && r->Some_0@ == OpModel::Add(d[0], RelModel::Top)
            }),
            ({
                let d = spec_names(old(self).desired.ingredients@);
                let rs = spec_names(result.ingredients@);
                personality.allergies@.len() == 0 && personality.shyness == 0 && !spec_all_in(
                    d,
                    rs,
                ) && spec_next_index(d, rs) >= 1 && spec_first_extra(rs, d) is Some ==> r is Some
                    && (r->Some_0@ == OpModel::Remove(spec_first_extra(rs, d)->Some_0)
                    || r->Some_0@ == OpModel::Persist(
                    Box::new(OpModel::Remove(spec_first_extra(rs, d)->Some_0)),
                ))
            }),
            spec_plain_agent(*personality) ==> ({
                let d = spec_names(old(self).desired.ingredients@);
                let rs = spec_names(result.ingredients@);
                spec_all_in(d, rs) || match r {
                    Some(op) => spec_plain_pick(d, rs) == Some(op@),
                    None => spec_plain_pick(d, rs) is None,
                }
            }),
    {
        let ghost d: Seq<Seq<char>> = spec_names(self.desired.ingredients@);
        let ghost rs: Seq<Seq<char>> = spec_names(result.ingredients@);
        self.last_result = Some(result.clone());
        if all_contained(&self.desired.ingredients, &result.ingredients) {
            return None;
        }
        let dn: usize = self.desired.ingredients.len();
        proof {
            assert(d.len() == dn);
            assert(d.len() > 0) by {
                if d.len() == 0 {
                    assert(spec_all_in(d, rs));
                }
            }
        }
        // One past the top-most desired position already on the sandwich,
        // skipping over positions an allergy roll suppresses.
        let mut next_idx: usize = 0;
        let mut j: usize = dn;
        let mut found: bool = false;
        while j > 0 && !found
            invariant
                j <= dn,
                dn == d.len(),
                d == spec_names(self.desired.ingredients@),
                rs == spec_names(result.ingredients@),
                !found ==> next_idx == 0 && (personality.allergies@.len() == 0
                    ==> spec_last_shared(d, rs, j as int) == spec_last_shared(
                    d,
                    rs,
                    d.len() as int,
                )),
                (forall|k: int| 0 <= k < d.len() ==> !rs.contains(#[trigger] d[k])) ==> !found,
                found ==> 1 <= next_idx <= dn && (personality.allergies@.len() == 0
                    ==> next_idx == spec_next_index(d, rs)),
            decreases j,
        {
            j = j - 1;
            proof {
                assert(d[j as int] == self.desired.ingredients@[j as int].name@);
            }
            let ing: &Ingredient = &self.desired.ingredients[j];
            let mut suppressed: bool = false;
            let mut a: usize = 0;
            while a < personality.allergies.len()
                invariant
                    a <= personality.allergies@.len(),
                    personality.allergies@.len() == 0 ==> !suppressed,
                decreases personality.allergies@.len() - a,
            {
                let hit: bool = personality.allergies[a].ingredient.name == ing.name;
                if hit && rng.chance(personality.allergies[a].severity) {
                    suppressed = true;
                }
                a = a + 1;
            }
            if !suppressed && contains_name(&result.ingredients, &ing.name) {
                next_idx = j + 1;
                found = true;
            }
        }
        proof {
            if personality.allergies@.len() == 0 {
                if !found {
                    assert(spec_last_shared(d, rs, 0) == -1);
                    assert(next_idx == spec_next_index(d, rs));
                } else {
                    assert(next_idx == spec_next_index(d, rs));
                }
            }
        }
        // The base always goes down first.
        if next_idx == 0 {
            let first: Ingredient = self.desired.ingredients[0].clone();
            proof {
                assert(d[0] == self.desired.ingredients@[0].name@);
            }
            return Some(Operation::Add(first, Relative::Top));
        }
        // Maybe forget this ingredient and move on to the next one.
        if rng.chance(personality.forgetfulness) && next_idx < dn {
            next_idx = next_idx + 1;
        }
        // An extra ingredient nobody asked for gets removed, shyness
        // permitting.
        let stress: u32 = personality.stress();
        let shy_gate: u32 = {
            let wide: u64 = personality.shyness as u64 * 100 / stress as u64;
            if wide > 1000 {
                1000
            } else {
                wide as u32
            }
        };
        let mut extra: Option<Ingredient> = None;
        let mut e: usize = 0;
        proof {
            assert(rs.len() == result.ingredients@.len());
            assert(rs.skip(0) =~~= rs);
        }
        while e < result.ingredients.len()
            invariant_except_break
                extra is None,
                spec_first_extra(rs, d) == spec_first_extra(rs.skip(e as int), d),
            invariant
                e <= result.ingredients@.len(),
                d == spec_names(self.desired.ingredients@),
                rs == spec_names(result.ingredients@),
            ensures
                match extra {
                    Some(x) => spec_first_extra(rs, d) == Some(x.name@),
                    None => e == result.ingredients@.len() && spec_first_extra(rs, d)
                        == spec_first_extra(rs.skip(e as int), d),
                },
            decreases result.ingredients@.len() - e,
        {
            proof {
                assert(rs.skip(e as int)[0] == rs[e as int]);
                assert(rs[e as int] == result.ingredients@[e as int].name@);
                assert(rs.skip(e as int).drop_first() =~~= rs.skip(e + 1));
            }
            if !contains_name(&self.desired.ingredients, &result.ingredients[e].name) {
                extra = Some(result.ingredients[e].clone());
                proof {
                    assert(spec_first_extra(rs, d) == Some(rs[e as int]));
                }
                break ;
            }
            e = e + 1;
        }
        proof {
            if extra is None {
                assert(rs.skip(rs.len() as int) =~~= Seq::<Seq<char>>::empty());
                assert(spec_first_extra(rs, d) is None);
            }
        }
        match extra {
            Some(ex) => {
                if !rng.chance(shy_gate) {
                    let remover: Operation = Operation::Remove(ex);
                    proof {
                        assert(remover@ == OpModel::Remove(spec_first_extra(rs, d)->Some_0));
                    }
                    if rng.chance(personality.adverbs) {
                        let wrapped: Operation = Operation::Persist(Box::new(remover));
                        proof {
                            assert(wrapped@ == OpModel::Persist(
                                Box::new(OpModel::Remove(spec_first_extra(rs, d)->Some_0)),
                            ));
                        }
                        return Some(wrapped);
                    }
                    return Some(remover);
                }
            },
            None => {},
        }
        // A desired ingredient skipped earlier is a mistake worth
        // correcting with a position, courage and skill permitting.
        let upto: usize = if next_idx < dn {
            next_idx
        } else {
            dn
        };
        let mut mistake: Option<usize> = None;
        let mut mi: usize = 0;
        while mi < upto
            invariant
                mi <= upto <= dn,
                dn == self.desired.ingredients@.len(),
                match mistake {
                    Some(x) => x < dn,
                    None => true,
                },
            decreases upto - mi,
        {
            if !contains_name(&result.ingredients, &self.desired.ingredients[mi].name) {
                mistake = Some(mi);
                break ;
            }
            mi = mi + 1;
        }
        let adpos_gate: u32 = {
            let wide: u64 = personality.adposition as u64 * 3 / 2;
            if wide > 990 {
                990
            } else {
                wide as u32
            }
        };
        match mistake {
            Some(idx) => {
                if !rng.chance(shy_gate) && rng.chance(adpos_gate) {
                    let rel: Relative = if idx == 0 {
                        let mut anchor: Option<Ingredient> = None;
                        let mut k: usize = 0;
                        while k < dn
                            invariant
                                k <= dn,
                                dn == self.desired.ingredients@.len(),
                            decreases dn - k,
                        {
                            if contains_name(
                                &result.ingredients,
                                &self.desired.ingredients[k].name,
                            ) {
                                anchor = Some(self.desired.ingredients[k].clone());
                                break ;
                            }
                            k = k + 1;
                        }
                        match anchor {
                            Some(b) => Relative::Before(b),
                            None => Relative::Top,
                        }
                    } else {
                        let mut anchor: Option<Ingredient> = None;
                        let mut k: usize = 0;
                        while k < idx
                            invariant
                                k <= idx < dn,
                                dn == self.desired.ingredients@.len(),
                            decreases idx - k,
                        {
                            if contains_name(
                                &result.ingredients,
                                &self.desired.ingredients[k].name,
                            ) {
                                anchor = Some(self.desired.ingredients[k].clone());
                            }
                            k = k + 1;
                        }
                        match anchor {
                            Some(b) => Relative::After(b),
                            None => Relative::Top,
                        }
                    };
                    let wanted: Ingredient = self.desired.ingredients[idx].clone();
                    return Some(Operation::Add(wanted, rel));
                }
            },
            None => {},
        }
        // An allergen on the sandwich gets removed when severity, courage,
        // and the adverb skill line up.
        let adverb_gate: u32 = {
            let wide: u64 = personality.adverbs as u64 * 3 / 2;
            if wide > 990 {
                990
            } else {
                wide as u32
            }
        };
        let mut ai: usize = 0;
        while ai < personality.allergies.len()
            invariant
                ai <= personality.allergies@.len(),
                !(d.len() > 0 && (forall|k: int|
                    0 <= k < d.len() ==> !rs.contains(#[trigger] d[k]))),
                self.last_result is Some && spec_names(
                    self.last_result->Some_0.ingredients@,
                ) == spec_names(result.ingredients@),
                self.desired == old(self).desired,
                self.history == old(self).history,
                self.persistent_ops == old(self).persistent_ops,
                d == spec_names(old(self).desired.ingredients@),
                rs == spec_names(result.ingredients@),
                !spec_all_in(d, rs),
            decreases personality.allergies@.len() - ai,
        {
            let mut present: bool = false;
            let mut x: usize = 0;
            while x < result.ingredients.len()
                invariant
                    x <= result.ingredients@.len(),
                    ai < personality.allergies@.len(),
                decreases result.ingredients@.len() - x,
            {
                if personality.allergies[ai].ingredient.includes(&result.ingredients[x]) {
                    present = true;
                }
                x = x + 1;
            }
            if present {
                if rng.chance(personality.allergies[ai].severity) && !rng.chance(shy_gate)
                    && rng.chance(adverb_gate) {
                    let allergen: Ingredient = personality.allergies[ai].ingredient.clone();
                    proof {
                        assert(!spec_plain_agent(*personality));
                    }
                    return Some(Operation::Remove(allergen));
                }
                break ;
            }
            ai = ai + 1;
        }
        // Sometimes the mood strikes and a missing favorite gets ordered
        // out of turn.
        let spont_gate: u32 = {
            proof {
                assert(personality.spontaneity as u64 * stress as u64 <= 0xffff_ffffu64
                    * 200) by (nonlinear_arith)
                    requires
                        personality.spontaneity <= 0xffff_ffffu32,
                        stress <= 200,
                ;
            }
            let wide: u64 = personality.spontaneity as u64 * stress as u64 / 100;
            if wide > 900 {
                900
            } else {
                wide as u32
            }
        };
        if rng.chance(spont_gate) {
            proof {
                if personality.spontaneity == 0 {
                    assert(personality.spontaneity as u64 * stress as u64 == 0)
                        by (nonlinear_arith)
                        requires
                            personality.spontaneity == 0,
                    ;
                    assert(false);
                }
            }
            let mut any_favs: bool = false;
            let mut di: usize = 0;
            while di < self.desired.ingredients.len()
                invariant
                    di <= self.desired.ingredients@.len(),
                decreases self.desired.ingredients@.len() - di,
            {
                let mut fi: usize = 0;
                while fi < personality.preferences.len()
                    invariant
                        fi <= personality.preferences@.len(),
                        di < self.desired.ingredients@.len(),
                    decreases personality.preferences@.len() - fi,
                {
                    if personality.preferences[fi].ingredient.includes(
                        &self.desired.ingredients[di],
                    ) && rng.chance(personality.preferences[fi].severity) {
                        any_favs = true;
                    }
                    fi = fi + 1;
                }
                di = di + 1;
            }
            if !any_favs && personality.preferences.len() > 0 {
                let mut weights: Vec<u32> = Vec::new();
                let mut wi: usize = 0;
                while wi < personality.preferences.len()
                    invariant
                        wi <= personality.preferences@.len(),
                    decreases personality.preferences@.len() - wi,
                {
                    weights.push(personality.preferences[wi].severity);
                    wi = wi + 1;
                }
                match rng.pick_weighted(&weights) {
                    Some(pick) => {
                        if pick < personality.preferences.len() {
                            // Desires mutate mid-negotiation: the favorite
                            // joins the desired sandwich and gets ordered.
                            let fav: Ingredient = personality.preferences[pick].ingredient.clone();
                            let spliced: Ingredient =
                                personality.preferences[pick].ingredient.clone();
                            let ghost before: Seq<Ingredient> = self.desired.ingredients@;
                            self.desired.ingredients.push(spliced);
                            proof {
                                assert(spec_names(before).len() == before.len());
                                assert forall|x: int|
                                    0 <= x < spec_names(self.desired.ingredients@).len() implies
                                    spec_names(self.desired.ingredients@)[x] == spec_names(
                                    before,
                                ).push(fav.name@)[x] by {
                                    assert(spec_names(self.desired.ingredients@)[x]
                                        == self.desired.ingredients@[x].name@);
                                    if x < before.len() {
                                        assert(self.desired.ingredients@[x] == before[x]);
                                        assert(spec_names(before)[x] == before[x].name@);
                                    }
                                }
                                assert(spec_names(self.desired.ingredients@) =~~= spec_names(
                                    before,
                                ).push(fav.name@));
                            }
                            return Some(Operation::Add(fav, Relative::Top));
                        }
                    },
                    None => {},
                }
            }
        }
        // The default: the next desired ingredient goes on top, after a shy
        // availability question or batched with its equal neighbors.
        if next_idx >= dn {
            return None;
        }
        let next_ingr: Ingredient = self.desired.ingredients[next_idx].clone();
        proof {
            assert(d[next_idx as int] == self.desired.ingredients@[next_idx as int].name@);
        }
        if !contains_name(&self.desired.ensured, &next_ingr.name) && rng.chance(shy_gate) {
            return Some(Operation::CheckFor(next_ingr));
        }
        let mut same_count: usize = 1;
        let mut sc: usize = next_idx + 1;
        while sc < dn && same_count < 0xffff_ffffusize
            invariant
                next_idx < sc <= dn,
                dn == self.desired.ingredients@.len(),
                1 <= same_count <= sc - next_idx,
            decreases dn - sc,
        {
            let more: bool = self.desired.ingredients[sc].name == next_ingr.name;
            if more {
                same_count = same_count + 1;
                sc = sc + 1;
            } else {
                break ;
            }
        }
        if same_count > 1 && rng.chance(personality.numbers) {
            let reps: u32 = if same_count >= 0xffff_ffffusize {
                0xffff_ffffu32
            } else {
                same_count as u32
            };
            let adder: Operation = Operation::Add(next_ingr, Relative::Top);
            return Some(Operation::Repeat(reps, Box::new(adder)));
        }
        Some(Operation::Add(next_ingr, Relative::Top))
    }
}

/// The models of a list of operations.
pub open spec fn spec_op_views(s: Seq<Operation>) -> Seq<OpModel> {
    s.map_values(|op: Operation| op@)
}

/// A list of operations applied in order, front first.
pub open spec fn spec_apply_seq(
    ops: Seq<OpModel>,
    st: ApplyState,
    es: Seq<(Seq<Syllable>, EntryModel)>,
) -> ApplyState
    decreases ops.len(),
{
    if ops.len() == 0 {
        st
    } else {
        spec_apply_seq(ops.drop_first(), spec_apply(ops[0], st, es), es)
    }
}

/// One more application extends the fold at its end.
pub proof fn lemma_apply_seq_snoc(
    ops: Seq<OpModel>,
    x: OpModel,
    st: ApplyState,
    es: Seq<(Seq<Syllable>, EntryModel)>,
)
    ensures
        spec_apply_seq(ops.push(x), st, es) == spec_apply(x, spec_apply_seq(ops, st, es), es),
    decreases ops.len(),
{
    assert(ops.push(x).len() == ops.len() + 1);
    if ops.len() == 0 {
        assert(ops.push(x)[0] == x);
        assert(ops.push(x).drop_first() =~~= Seq::<OpModel>::empty());
        assert(spec_apply_seq(Seq::<OpModel>::empty(), spec_apply(x, st, es), es) == spec_apply(
            x,
            st,
            es,
        ));
        assert(spec_apply_seq(ops, st, es) == st);
    } else {
        assert(ops.push(x)[0] == ops[0]);
        assert(ops.push(x).drop_first() =~~= ops.drop_first().push(x));
        lemma_apply_seq_snoc(ops.drop_first(), x, spec_apply(ops[0], st, es), es);
    }
}

/// A single message of the wire protocol: an utterance, a sandwich
/// snapshot, or both.
#[derive(Debug)]
pub struct Message {
    pub text: Option<String>,
    pub sandwich: Option<Sandwich>,
}

/// The fixed frame size of a wire message, in bytes.
pub const MESSAGE_MAX_SIZE: usize = 4096;

impl Message {
    /// A message carrying the given parts.
    pub fn new(text: Option<String>, sandwich: Option<Sandwich>) -> (r: Message)
        ensures
            r.text == text,
            r.sandwich == sandwich,
    {
        Message { text, sandwich }
    }
}

/// The content length of a received frame: everything up to and including
/// the last nonzero byte, so the zero padding the frame came with is
/// dropped. Zero for an all-zero frame.
pub fn frame_content_len(buf: &Vec<u8>) -> (r: usize)
    ensures
        r <= buf@.len(),
        forall|k: int| r <= k < buf@.len() ==> buf@[k] == 0,
        r > 0 ==> buf@[r - 1] != 0,
{
    let mut i: usize = buf.len();
    while i > 0
        invariant
            i <= buf@.len(),
            forall|k: int| i <= k < buf@.len() ==> buf@[k] == 0,
        decreases i,
    {
        if buf[i - 1] != 0 {
            return i;
        }
        i = i - 1;
    }
    0
}

} // verus!
