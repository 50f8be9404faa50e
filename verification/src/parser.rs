//! The recursive-descent parser: annotated words to typed operations.
//!
//! The grammar, in precedence order: a sentence is a greeting, an
//! affirmation, or a conjoined phrase; conjoined phrases nest to the right
//! around the conjunction word; a numbered phrase may wrap its body in a
//! repetition; an adverb phrase may persist or reverse its body; a
//! positional phrase may anchor its clause before or after another
//! ingredient; a core clause is an ingredient and a verb. Each probabilistic
//! construct is gated by the matching grammar skill: the spec functions here
//! describe the parse under full comprehension, when every gate passes, and
//! the executable parsers are held to them exactly in that case.

use vstd::prelude::*;

use crate::behavior::ops::{spec_rel_from_def, OpModel, Operation, RelModel, Relative};
use crate::behavior::personality::{Language, Personality};
use crate::grammar::{
    lemma_lookup_member, spec_definition, spec_keys_distinct, spec_number, AnnotatedWord,
    AnnotatedWordModel, Syllable, Word, WordFunction, WordRole,
};
use crate::random::{Entropy, SCALE};
use crate::sandwich::{spec_from_word, Ingredient};

verus! {

/// Whether the word at `at` was read with the given grammatical category.
pub open spec fn spec_has_def(ws: Seq<AnnotatedWordModel>, at: int, f: WordFunction) -> bool {
    0 <= at < ws.len() && spec_definition(ws[at]) == Some(f)
}

/// Whether the word at `at` was read with the given syntactic role.
pub open spec fn spec_has_role(ws: Seq<AnnotatedWordModel>, at: int, role: WordRole) -> bool {
    0 <= at < ws.len() && ws[at].role == Some(role)
}

/// An ingredient mention: a word read as an ingredient, resolved through
/// the taxonomy's morpheme walk to a node name.
pub open spec fn spec_parse_ingredient(
    ws: Seq<AnnotatedWordModel>,
    at: int,
    tax: Ingredient,
) -> Option<(Seq<char>, int)> {
    if spec_has_def(ws, at, WordFunction::Ingredient) {
        Some((spec_from_word(tax, ws[at].word).name@, at + 1))
    } else {
        None
    }
}

/// An adposition: an anchor ingredient followed by a preposition word.
pub open spec fn spec_parse_adposition(
    ws: Seq<AnnotatedWordModel>,
    at: int,
    tax: Ingredient,
) -> Option<(RelModel, int)> {
    match spec_parse_ingredient(ws, at, tax) {
        Some((anchor, i)) => {
            if spec_has_role(ws, i, WordRole::Preposition) && ws[i].entry is Some {
                Some((spec_rel_from_def(ws[i].entry->Some_0.function, anchor), i + 1))
            } else {
                None
            }
        },
        None => None,
    }
}

/// A core clause: an ingredient and a verb. A desire verb adds the
/// ingredient at the given position, a have verb confirms it; any other
/// verb fails the parse.
pub open spec fn spec_parse_clause(
    ws: Seq<AnnotatedWordModel>,
    at: int,
    pos: RelModel,
    tax: Ingredient,
) -> Option<(OpModel, int)> {
    match spec_parse_ingredient(ws, at, tax) {
        Some((name, i)) => {
            if spec_has_role(ws, i, WordRole::Verb) {
                match spec_definition(ws[i]) {
                    Some(WordFunction::Desire) => Some((OpModel::Add(name, pos), i + 1)),
                    Some(WordFunction::Have) => Some((OpModel::Ensure(name), i + 1)),
                    _ => None,
                }
            } else {
                None
            }
        },
        None => None,
    }
}

/// A positional phrase under full comprehension: a clause anchored by an
/// adposition when one parses through, a plain top-level clause otherwise.
pub open spec fn spec_parse_pos(
    ws: Seq<AnnotatedWordModel>,
    at: int,
    tax: Ingredient,
) -> Option<(OpModel, int)> {
    match spec_parse_adposition(ws, at, tax) {
        Some((rel, i)) => match spec_parse_clause(ws, i, rel, tax) {
            Some(r) => Some(r),
            None => spec_parse_clause(ws, at, RelModel::Top, tax),
        },
        None => spec_parse_clause(ws, at, RelModel::Top, tax),
    }
}

/// An adverb phrase under full comprehension: an ever word persists its
/// body, a negation word reverses it, any other adverb fails that branch,
/// and without a leading adverb the positional phrase stands alone.
pub open spec fn spec_parse_adv(
    ws: Seq<AnnotatedWordModel>,
    at: int,
    tax: Ingredient,
) -> Option<(OpModel, int)>
    decreases ws.len() - at,
    when 0 <= at <= ws.len()
{
    if spec_has_role(ws, at, WordRole::Adverb) {
        match spec_parse_adv(ws, at + 1, tax) {
            Some((inner, i)) => match spec_definition(ws[at]) {
                Some(WordFunction::Ever) => Some((OpModel::Persist(Box::new(inner)), i)),
                Some(WordFunction::Negation) => Some(
                    (crate::behavior::ops::spec_reverse(inner), i),
                ),
                _ => spec_parse_pos(ws, at, tax),
            },
            None => spec_parse_pos(ws, at, tax),
        }
    } else {
        spec_parse_pos(ws, at, tax)
    }
}

/// A numbered phrase under full comprehension: a number word wraps its body
/// in a repetition; without one the adverb phrase stands alone.
pub open spec fn spec_parse_numbered(
    ws: Seq<AnnotatedWordModel>,
    at: int,
    tax: Ingredient,
) -> Option<(OpModel, int)>
    decreases ws.len() - at,
    when 0 <= at <= ws.len()
{
    if spec_has_def(ws, at, WordFunction::Number) && spec_number(
        ws[at].entry->Some_0.definition,
    ) is Some {
        match spec_parse_numbered(ws, at + 1, tax) {
            Some((inner, i)) => Some(
                (
                    OpModel::Repeat(
                        spec_number(ws[at].entry->Some_0.definition)->Some_0 as int,
                        Box::new(inner),
                    ),
                    i,
                ),
            ),
            None => spec_parse_adv(ws, at, tax),
        }
    } else {
        spec_parse_adv(ws, at, tax)
    }
}

/// A parse never stands still: success moves the cursor forward, and never
/// past the end.
pub proof fn lemma_adv_advances(ws: Seq<AnnotatedWordModel>, at: int, tax: Ingredient)
    requires
        0 <= at <= ws.len(),
    ensures
        match spec_parse_adv(ws, at, tax) {
            Some(r) => at < r.1 <= ws.len(),
            None => true,
        },
    decreases ws.len() - at,
{
    if spec_has_role(ws, at, WordRole::Adverb) {
        lemma_adv_advances(ws, at + 1, tax);
    }
}

/// The same, for numbered phrases.
pub proof fn lemma_numbered_advances(ws: Seq<AnnotatedWordModel>, at: int, tax: Ingredient)
    requires
        0 <= at <= ws.len(),
    ensures
        match spec_parse_numbered(ws, at, tax) {
            Some(r) => at < r.1 <= ws.len(),
            None => true,
        },
    decreases ws.len() - at,
{
    if spec_has_def(ws, at, WordFunction::Number) && spec_number(
        ws[at].entry->Some_0.definition,
    ) is Some {
        lemma_numbered_advances(ws, at + 1, tax);
    }
    lemma_adv_advances(ws, at, tax);
}

/// A conjoined phrase under full comprehension: right-recursive around the
/// conjunction word, compounding both conjuncts.
pub open spec fn spec_parse_conjunct(
    ws: Seq<AnnotatedWordModel>,
    at: int,
    tax: Ingredient,
) -> Option<(OpModel, int)>
    decreases ws.len() - at,
    when 0 <= at <= ws.len()
    via spec_parse_conjunct_decreases
{
    match spec_parse_numbered(ws, at, tax) {
        Some((a, i)) => {
            if spec_has_def(ws, i, WordFunction::And) {
                match spec_parse_conjunct(ws, i + 1, tax) {
                    Some((b, j)) => Some(
                        (OpModel::Compound(Box::new(a), Box::new(b)), j),
                    ),
                    None => Some((a, i)),
                }
            } else {
                Some((a, i))
            }
        },
        None => None,
    }
}

#[via_fn]
proof fn spec_parse_conjunct_decreases(ws: Seq<AnnotatedWordModel>, at: int, tax: Ingredient) {
    lemma_numbered_advances(ws, at, tax);
}

/// The same, for conjoined phrases.
pub proof fn lemma_conjunct_advances(ws: Seq<AnnotatedWordModel>, at: int, tax: Ingredient)
    requires
        0 <= at <= ws.len(),
    ensures
        match spec_parse_conjunct(ws, at, tax) {
            Some(r) => at < r.1 <= ws.len(),
            None => true,
        },
    decreases ws.len() - at,
{
    lemma_numbered_advances(ws, at, tax);
    match spec_parse_numbered(ws, at, tax) {
        Some((a, i)) => {
            if spec_has_def(ws, i, WordFunction::And) {
                lemma_conjunct_advances(ws, i + 1, tax);
            }
        },
        None => {},
    }
}

/// Whether every adverb-role word reads as an ever or a negation. Under
/// this condition the words a parse consumes — and so its success, its
/// cursor, and its adverb, number, and conjunction tallies — do not depend
/// on the skill rolls; only the operation built and the adposition tally
/// do.
pub open spec fn spec_no_stray_adverbs(ws: Seq<AnnotatedWordModel>) -> bool {
    forall|k: int|
        0 <= k < ws.len() && (#[trigger] ws[k]).role == Some(WordRole::Adverb) ==> spec_definition(
            ws[k],
        ) == Some(WordFunction::Ever) || spec_definition(ws[k]) == Some(WordFunction::Negation)
}

/// The construct tally of a positional phrase: one adposition when an
/// anchored clause went through, nothing otherwise.
pub open spec fn spec_tally_pos(
    ws: Seq<AnnotatedWordModel>,
    at: int,
    tax: Ingredient,
) -> crate::behavior::personality::LanguageModel {
    match spec_parse_adposition(ws, at, tax) {
        Some((rel, i)) => match spec_parse_clause(ws, i, rel, tax) {
            Some((op, _)) => match op {
                OpModel::Add(_, _) => crate::behavior::personality::LanguageModel {
                    adposition: if rel is Top {
                        0
                    } else {
                        1
                    },
                    ..crate::behavior::personality::spec_zero_language()
                },
                _ => crate::behavior::personality::spec_zero_language(),
            },
            None => crate::behavior::personality::spec_zero_language(),
        },
        None => crate::behavior::personality::spec_zero_language(),
    }
}

/// The construct tally of an adverb phrase: one adverb per consumed ever
/// or negation word, atop the body's tally.
pub open spec fn spec_tally_adv(
    ws: Seq<AnnotatedWordModel>,
    at: int,
    tax: Ingredient,
) -> crate::behavior::personality::LanguageModel
    decreases ws.len() - at,
    when 0 <= at <= ws.len()
{
    if spec_has_role(ws, at, WordRole::Adverb) {
        match spec_parse_adv(ws, at + 1, tax) {
            Some(_) => match spec_definition(ws[at]) {
                Some(WordFunction::Ever) | Some(WordFunction::Negation) => {
                    let t = spec_tally_adv(ws, at + 1, tax);
                    crate::behavior::personality::LanguageModel {
                        adverbs: t.adverbs + 1,
                        ..t
                    }
                },
                _ => spec_tally_pos(ws, at, tax),
            },
            None => spec_tally_pos(ws, at, tax),
        }
    } else {
        spec_tally_pos(ws, at, tax)
    }
}

/// The construct tally of a numbered phrase: one number per consumed
/// number word, atop the body's tally.
pub open spec fn spec_tally_numbered(
    ws: Seq<AnnotatedWordModel>,
    at: int,
    tax: Ingredient,
) -> crate::behavior::personality::LanguageModel
    decreases ws.len() - at,
    when 0 <= at <= ws.len()
{
    if spec_has_def(ws, at, WordFunction::Number) && spec_number(
        ws[at].entry->Some_0.definition,
    ) is Some {
        match spec_parse_numbered(ws, at + 1, tax) {
            Some(_) => {
                let t = spec_tally_numbered(ws, at + 1, tax);
                crate::behavior::personality::LanguageModel { numbers: t.numbers + 1, ..t }
            },
            None => spec_tally_adv(ws, at, tax),
        }
    } else {
        spec_tally_adv(ws, at, tax)
    }
}

/// The construct tally of a conjoined phrase: one conjunction per consumed
/// conjunction word, atop both conjuncts' tallies.
pub open spec fn spec_tally_conjunct(
    ws: Seq<AnnotatedWordModel>,
    at: int,
    tax: Ingredient,
) -> crate::behavior::personality::LanguageModel
    decreases ws.len() - at,
    when 0 <= at <= ws.len()
    via spec_tally_conjunct_decreases
{
    match spec_parse_numbered(ws, at, tax) {
        Some((a, i)) => {
            if spec_has_def(ws, i, WordFunction::And) {
                match spec_parse_conjunct(ws, i + 1, tax) {
                    Some(_) => {
                        let ta = spec_tally_numbered(ws, at, tax);
                        let tb = spec_tally_conjunct(ws, i + 1, tax);
                        crate::behavior::personality::LanguageModel {
                            adverbs: ta.adverbs + tb.adverbs,
                            adverb_side: ta.adverb_side + tb.adverb_side,
                            adposition: ta.adposition + tb.adposition,
                            conjunction: ta.conjunction + tb.conjunction + 1,
                            numbers: ta.numbers + tb.numbers,
                        }
                    },
                    None => spec_tally_numbered(ws, at, tax),
                }
            } else {
                spec_tally_numbered(ws, at, tax)
            }
        },
        None => crate::behavior::personality::spec_zero_language(),
    }
}

#[via_fn]
proof fn spec_tally_conjunct_decreases(ws: Seq<AnnotatedWordModel>, at: int, tax: Ingredient) {
    lemma_numbered_advances(ws, at, tax);
}

/// Every count in a parse tally is nonnegative, and the side tally stays
/// zero.
pub proof fn lemma_tally_nonneg(ws: Seq<AnnotatedWordModel>, at: int, tax: Ingredient)
    requires
        0 <= at <= ws.len(),
    ensures
        spec_tally_adv(ws, at, tax).adverbs >= 0,
        spec_tally_adv(ws, at, tax).adverb_side == 0,
        spec_tally_adv(ws, at, tax).adposition >= 0,
        spec_tally_adv(ws, at, tax).conjunction == 0,
        spec_tally_adv(ws, at, tax).numbers == 0,
        spec_tally_numbered(ws, at, tax).adverbs >= 0,
        spec_tally_numbered(ws, at, tax).adverb_side == 0,
        spec_tally_numbered(ws, at, tax).adposition >= 0,
        spec_tally_numbered(ws, at, tax).conjunction == 0,
        spec_tally_numbered(ws, at, tax).numbers >= 0,
        spec_tally_conjunct(ws, at, tax).adverbs >= 0,
        spec_tally_conjunct(ws, at, tax).adverb_side == 0,
        spec_tally_conjunct(ws, at, tax).adposition >= 0,
        spec_tally_conjunct(ws, at, tax).conjunction >= 0,
        spec_tally_conjunct(ws, at, tax).numbers >= 0,
    decreases ws.len() - at,
{
    lemma_numbered_advances(ws, at, tax);
    if spec_has_role(ws, at, WordRole::Adverb) && at < ws.len() {
        lemma_tally_nonneg(ws, at + 1, tax);
    }
    if spec_has_def(ws, at, WordFunction::Number) && spec_number(
        ws[at].entry->Some_0.definition,
    ) is Some && at < ws.len() {
        lemma_tally_nonneg(ws, at + 1, tax);
    }
    match spec_parse_numbered(ws, at, tax) {
        Some((a, i)) => {
            if spec_has_def(ws, i, WordFunction::And) {
                lemma_tally_nonneg(ws, i + 1, tax);
            }
        },
        None => {},
    }
}

/// An operation with any positional anchor stripped back to the plain
/// top; everything else is itself.
pub open spec fn spec_untethered(m: OpModel) -> OpModel {
    match m {
        OpModel::Add(n, _) => OpModel::Add(n, RelModel::Top),
        _ => m,
    }
}

/// The admissible results of a positional phrase, by the agent's skill
/// weights: the anchored clause where the adposition gate may pass, and
/// the plain-top clause where it may fail. A zero-weight gate never
/// passes; a full-weight gate never fails.
pub open spec fn spec_outcome_pos(
    ws: Seq<AnnotatedWordModel>,
    at: int,
    tax: Ingredient,
    lang: Personality,
    m: OpModel,
) -> bool {
    match spec_parse_pos(ws, at, tax) {
        Some((op, _)) => (m == op && lang.adposition > 0) || (m == spec_untethered(op)
            && lang.adposition < SCALE),
        None => false,
    }
}

/// The admissible results of an adverb phrase: the persisted or reversed
/// body when the adverb gate can pass, and the bare body — the adverb
/// consumed without effect — when it can fail.
pub open spec fn spec_outcome_adv(
    ws: Seq<AnnotatedWordModel>,
    at: int,
    tax: Ingredient,
    lang: Personality,
    m: OpModel,
) -> bool
    decreases ws.len() - at,
    when 0 <= at <= ws.len()
{
    if spec_has_role(ws, at, WordRole::Adverb) {
        match spec_parse_adv(ws, at + 1, tax) {
            Some(_) => match spec_definition(ws[at]) {
                Some(WordFunction::Ever) => ((m is Persist && spec_outcome_adv(
                    ws,
                    at + 1,
                    tax,
                    lang,
                    *m->Persist_0,
                )) && lang.adverbs > 0) || (spec_outcome_adv(ws, at + 1, tax, lang, m)
                    && lang.adverbs < SCALE),
                Some(WordFunction::Negation) => ((exists|x: OpModel|
                    spec_outcome_adv(ws, at + 1, tax, lang, x) && m == crate::behavior::ops::spec_reverse(
                        x,
                    )) && lang.adverbs > 0) || (spec_outcome_adv(ws, at + 1, tax, lang, m)
                    && lang.adverbs < SCALE),
                _ => spec_outcome_pos(ws, at, tax, lang, m),
            },
            None => spec_outcome_pos(ws, at, tax, lang, m),
        }
    } else {
        spec_outcome_pos(ws, at, tax, lang, m)
    }
}

/// The admissible results of a numbered phrase: the repetition when the
/// number gate can pass, and the bare body — the number consumed without
/// effect — when it can fail.
pub open spec fn spec_outcome_numbered(
    ws: Seq<AnnotatedWordModel>,
    at: int,
    tax: Ingredient,
    lang: Personality,
    m: OpModel,
) -> bool
    decreases ws.len() - at,
    when 0 <= at <= ws.len()
{
    if spec_has_def(ws, at, WordFunction::Number) && spec_number(
        ws[at].entry->Some_0.definition,
    ) is Some {
        match spec_parse_numbered(ws, at + 1, tax) {
            Some(_) => ((m is Repeat && m->Repeat_0 == spec_number(
                ws[at].entry->Some_0.definition,
            )->Some_0 as int && spec_outcome_numbered(ws, at + 1, tax, lang, *m->Repeat_1))
                && lang.numbers > 0) || (spec_outcome_numbered(ws, at + 1, tax, lang, m)
                && lang.numbers < SCALE),
            None => spec_outcome_adv(ws, at, tax, lang, m),
        }
    } else {
        spec_outcome_adv(ws, at, tax, lang, m)
    }
}

/// The admissible results of a conjoined phrase: the compound of both
/// conjuncts when the conjunction gate can pass, and the second conjunct
/// alone — the first silently dropped — when it can fail.
pub open spec fn spec_outcome_conjunct(
    ws: Seq<AnnotatedWordModel>,
    at: int,
    tax: Ingredient,
    lang: Personality,
    m: OpModel,
) -> bool
    decreases ws.len() - at,
    when 0 <= at <= ws.len()
    via spec_outcome_conjunct_decreases
{
    match spec_parse_numbered(ws, at, tax) {
        Some((_, i)) => {
            if spec_has_def(ws, i, WordFunction::And) {
                match spec_parse_conjunct(ws, i + 1, tax) {
                    Some(_) => ((m is Compound && spec_outcome_numbered(
                        ws,
                        at,
                        tax,
                        lang,
                        *m->Compound_0,
                    ) && spec_outcome_conjunct(ws, i + 1, tax, lang, *m->Compound_1))
                        && lang.conjunction > 0) || (spec_outcome_conjunct(
                        ws,
                        i + 1,
                        tax,
                        lang,
                        m,
                    ) && lang.conjunction < SCALE),
                    None => spec_outcome_numbered(ws, at, tax, lang, m),
                }
            } else {
                spec_outcome_numbered(ws, at, tax, lang, m)
            }
        },
        None => false,
    }
}

#[via_fn]
proof fn spec_outcome_conjunct_decreases(
    ws: Seq<AnnotatedWordModel>,
    at: int,
    tax: Ingredient,
    lang: Personality,
    m: OpModel,
) {
    lemma_numbered_advances(ws, at, tax);
}

/// The admissible results of a whole sentence.
pub open spec fn spec_outcome_sentence(
    ws: Seq<AnnotatedWordModel>,
    tax: Ingredient,
    lang: Personality,
    m: OpModel,
) -> bool {
    if spec_has_def(ws, 0, WordFunction::Greeting) {
        m == OpModel::Finish
    } else if spec_has_def(ws, 0, WordFunction::Affirmation) {
        m == OpModel::Affirm
    } else {
        spec_outcome_conjunct(ws, 0, tax, lang, m)
    }
}

/// A whole sentence under full comprehension: a greeting closes the order,/// A whole sentence under full comprehension: a greeting closes the order,
/// an affirmation confirms the last phrase, and anything else must parse as
/// a conjoined phrase; words past a successful parse are ignored.
pub open spec fn spec_parse_sentence(ws: Seq<AnnotatedWordModel>, tax: Ingredient) -> Option<
    OpModel,
> {
    if spec_has_def(ws, 0, WordFunction::Greeting) {
        Some(OpModel::Finish)
    } else if spec_has_def(ws, 0, WordFunction::Affirmation) {
        Some(OpModel::Affirm)
    } else {
        match spec_parse_conjunct(ws, 0, tax) {
            Some((op, _)) => Some(op),
            None => None,
        }
    }
}

/// Whether every skill gate stands fully open, so that each grammatical
/// construct is understood with certainty.
pub open spec fn spec_full_skills(p: Personality) -> bool {
    p.adverbs == SCALE && p.adposition == SCALE && p.conjunction == SCALE && p.numbers == SCALE
}

/// The views of an annotated phrase.
pub open spec fn va(ws: Seq<AnnotatedWord>) -> Seq<AnnotatedWordModel> {
    crate::grammar::views_of_annotated(ws)
}

/// The word at `at`, when it was read with the given grammatical category.
pub fn word_with_def(ws: &Vec<AnnotatedWord>, at: usize, def: WordFunction) -> (r: Option<
    &AnnotatedWord,
>)
    requires
        at <= ws@.len(),
    ensures
        match r {
            Some(aw) => spec_has_def(va(ws@), at as int, def) && *aw == ws@[at as int],
            None => !spec_has_def(va(ws@), at as int, def),
        },
{
    proof {
        assert(va(ws@).len() == ws@.len());
        if (at as int) < ws@.len() {
            assert(va(ws@)[at as int] == ws@[at as int]@);
        }
    }
    if at < ws.len() {
        let aw: &AnnotatedWord = &ws[at];
        match aw.definition() {
            Some(f) => {
                if f == def {
                    Some(aw)
                } else {
                    None
                }
            },
            None => None,
        }
    } else {
        None
    }
}

/// The word at `at`, when it was read with the given syntactic role.
pub fn word_with_role(ws: &Vec<AnnotatedWord>, at: usize, role: WordRole) -> (r: Option<
    &AnnotatedWord,
>)
    requires
        at <= ws@.len(),
    ensures
        match r {
            Some(aw) => spec_has_role(va(ws@), at as int, role) && *aw == ws@[at as int],
            None => !spec_has_role(va(ws@), at as int, role),
        },
{
    proof {
        assert(va(ws@).len() == ws@.len());
        if (at as int) < ws@.len() {
            assert(va(ws@)[at as int] == ws@[at as int]@);
        }
    }
    if at < ws.len() {
        let aw: &AnnotatedWord = &ws[at];
        match aw.role {
            Some(x) => {
                if x == role {
                    Some(aw)
                } else {
                    None
                }
            },
            None => None,
        }
    } else {
        None
    }
}

/// An ingredient mention: an ingredient-class word resolved through the
/// taxonomy's morpheme walk.
pub fn ingredient(ws: &Vec<AnnotatedWord>, at: usize, lang: &Personality) -> (r: Option<
    (Ingredient, usize),
>)
    requires
        at <= ws@.len(),
    ensures
        match r {
            Some(p) => spec_parse_ingredient(va(ws@), at as int, lang.dictionary.ingredients)
                == Some((p.0.name@, p.1 as int)) && at < p.1 <= ws@.len(),
            None => spec_parse_ingredient(va(ws@), at as int, lang.dictionary.ingredients)
                is None,
        },
{
    let n: usize = ws.len();
    proof {
        assert(ws@.len() == n);
    }
    match word_with_def(ws, at, WordFunction::Ingredient) {
        Some(aw) => {
            let node: &Ingredient = lang.dictionary.ingredients.from_word(&aw.word);
            proof {
                assert(va(ws@)[at as int].word == ws@[at as int].word@);
            }
            Some((node.clone(), at + 1))
        },
        None => None,
    }
}

/// An adposition: an anchor ingredient followed by a preposition word.
pub fn adposition(ws: &Vec<AnnotatedWord>, at: usize, lang: &Personality) -> (r: Option<
    (Relative, usize),
>)
    requires
        at <= ws@.len(),
    ensures
        match r {
            Some(p) => spec_parse_adposition(va(ws@), at as int, lang.dictionary.ingredients)
                == Some((p.0@, p.1 as int)) && at < p.1 <= ws@.len(),
            None => spec_parse_adposition(va(ws@), at as int, lang.dictionary.ingredients)
                is None,
        },
{
    let n: usize = ws.len();
    proof {
        assert(ws@.len() == n);
    }
    match ingredient(ws, at, lang) {
        Some((anchor, i)) => {
            match word_with_role(ws, i, WordRole::Preposition) {
                Some(aw) => {
                    let f: WordFunction = match &aw.entry {
                        Some(e) => e.function,
                        None => {
                            proof {
                                assert(va(ws@)[i as int] == ws@[i as int]@);
                            }
                            return None;
                        },
                    };
                    proof {
                        assert(va(ws@)[i as int] == ws@[i as int]@);
                    }
                    Some((Relative::from_def(f, anchor), i + 1))
                },
                None => None,
            }
        },
        None => None,
    }
}

/// A core clause: an ingredient and a verb, at the given position. A desire
/// verb adds, a have verb confirms, and any other verb fails the parse.
pub fn clause_new(ws: &Vec<AnnotatedWord>, at: usize, pos: Relative, lang: &Personality) -> (r:
    Option<(Operation, Language, usize)>)
    requires
        at <= ws@.len(),
    ensures
        match r {
            Some(p) => spec_parse_clause(va(ws@), at as int, pos@, lang.dictionary.ingredients)
                == Some((p.0@, p.2 as int)) && at < p.2 <= ws@.len() && p.1@ == (match p.0@ {
                OpModel::Add(_, _) => (crate::behavior::personality::LanguageModel {
                    adposition: if pos@ is Top {
                        0
                    } else {
                        1
                    },
                    ..crate::behavior::personality::spec_zero_language()
                }),
                _ => crate::behavior::personality::spec_zero_language(),
            }),
            None => spec_parse_clause(va(ws@), at as int, pos@, lang.dictionary.ingredients)
                is None,
        },
{
    let n: usize = ws.len();
    proof {
        assert(ws@.len() == n);
    }
    match ingredient(ws, at, lang) {
        Some((np, i)) => {
            match word_with_role(ws, i, WordRole::Verb) {
                Some(aw) => {
                    proof {
                        assert(va(ws@)[i as int] == ws@[i as int]@);
                    }
                    match aw.definition() {
                        Some(WordFunction::Desire) => {
                            let tally: Language = Language {
                                adverbs: 0,
                                adverb_side: 0,
                                adposition: match pos {
                                    Relative::Top => 0,
                                    _ => 1,
                                },
                                conjunction: 0,
                                numbers: 0,
                            };
                            Some((Operation::Add(np, pos), tally, i + 1))
                        },
                        Some(WordFunction::Have) => {
                            let tally: Language = Language {
                                adverbs: 0,
                                adverb_side: 0,
                                adposition: 0,
                                conjunction: 0,
                                numbers: 0,
                            };
                            Some((Operation::Ensure(np), tally, i + 1))
                        },
                        _ => None,
                    }
                },
                None => None,
            }
        },
        None => None,
    }
}

/// A positional phrase: when the adposition gate passes, an anchored clause
/// is tried before the plain one; when it fails, a leading adposition is
/// consumed but ignored.
pub fn pos_p(ws: &Vec<AnnotatedWord>, at: usize, lang: &Personality, rng: &mut Entropy) -> (r:
    Option<(Operation, Language, usize)>)
    requires
        at <= ws@.len(),
    ensures
        match r {
            Some(p) => at < p.2 <= ws@.len(),
            None => true,
        },
        spec_full_skills(*lang) ==> match r {
            Some(p) => spec_parse_pos(va(ws@), at as int, lang.dictionary.ingredients) == Some(
                (p.0@, p.2 as int),
            ) && p.1@ == spec_tally_pos(va(ws@), at as int, lang.dictionary.ingredients),
            None => spec_parse_pos(va(ws@), at as int, lang.dictionary.ingredients) is None,
        },
        spec_no_stray_adverbs(va(ws@)) ==> ({
            let sp = spec_parse_pos(va(ws@), at as int, lang.dictionary.ingredients);
            let tl = spec_tally_pos(va(ws@), at as int, lang.dictionary.ingredients);
            &&& (r is Some) == (sp is Some)
            &&& (match r {
                Some(p) => p.2 == sp->Some_0.1 && spec_outcome_pos(
                    va(ws@),
                    at as int,
                    lang.dictionary.ingredients,
                    *lang,
                    p.0@,
                ) && p.1@.adverbs == crate::behavior::ops::spec_cap(
                    tl.adverbs,
                ) && p.1@.conjunction == crate::behavior::ops::spec_cap(tl.conjunction)
                    && p.1@.numbers == crate::behavior::ops::spec_cap(tl.numbers)
                    && p.1@.adverb_side == 0,
                None => true,
            })
        }),
{
    if rng.chance(lang.adposition) {
        match adposition(ws, at, lang) {
            Some((rel, i)) => match clause_new(ws, i, rel, lang) {
                Some(p) => Some(p),
                None => clause_new(ws, at, Relative::Top, lang),
            },
            None => clause_new(ws, at, Relative::Top, lang),
        }
    } else {
        match adposition(ws, at, lang) {
            Some((_, i)) => clause_new(ws, i, Relative::Top, lang),
            None => clause_new(ws, at, Relative::Top, lang),
        }
    }
}

/// An adverb phrase: a leading ever word persists its body and a negation
/// reverses it, when the adverb gate passes; a failed gate understands the
/// adverb but ignores it.
pub fn adv_p(ws: &Vec<AnnotatedWord>, at: usize, lang: &Personality, rng: &mut Entropy) -> (r:
    Option<(Operation, Language, usize)>)
    requires
        at <= ws@.len(),
    ensures
        match r {
            Some(p) => at < p.2 <= ws@.len(),
            None => true,
        },
        spec_full_skills(*lang) ==> match r {
            Some(p) => spec_parse_adv(va(ws@), at as int, lang.dictionary.ingredients) == Some(
                (p.0@, p.2 as int),
            ) && p.1@ == crate::behavior::ops::spec_cap_language(
                spec_tally_adv(va(ws@), at as int, lang.dictionary.ingredients),
            ),
            None => spec_parse_adv(va(ws@), at as int, lang.dictionary.ingredients) is None,
        },
        spec_no_stray_adverbs(va(ws@)) ==> ({
            let sp = spec_parse_adv(va(ws@), at as int, lang.dictionary.ingredients);
            let tl = spec_tally_adv(va(ws@), at as int, lang.dictionary.ingredients);
            &&& (r is Some) == (sp is Some)
            &&& (match r {
                Some(p) => p.2 == sp->Some_0.1 && spec_outcome_adv(
                    va(ws@),
                    at as int,
                    lang.dictionary.ingredients,
                    *lang,
                    p.0@,
                ) && p.1@.adverbs == crate::behavior::ops::spec_cap(
                    tl.adverbs,
                ) && p.1@.conjunction == crate::behavior::ops::spec_cap(tl.conjunction)
                    && p.1@.numbers == crate::behavior::ops::spec_cap(tl.numbers)
                    && p.1@.adverb_side == 0,
                None => true,
            })
        }),
    decreases ws@.len() - at,
{
    let n: usize = ws.len();
    proof {
        assert(ws@.len() == n);
        lemma_tally_nonneg(va(ws@), at as int, lang.dictionary.ingredients);
        if (at as int) < ws@.len() {
            lemma_tally_nonneg(va(ws@), at + 1, lang.dictionary.ingredients);
        }
    }
    let adverb: Option<WordFunction> = match word_with_role(ws, at, WordRole::Adverb) {
        Some(aw) => {
            proof {
                assert(va(ws@)[at as int] == ws@[at as int]@);
            }
            match aw.definition() {
                Some(f) => Some(f),
                None => None,
            }
        },
        None => {
            return pos_p(ws, at, lang, rng);
        },
    };
    match adv_p(ws, at + 1, lang, rng) {
        Some((vp, vl, i)) => {
            let understood: bool = rng.chance(lang.adverbs);
            let tally: Language = vl.combine(
                Language { adverbs: 1, adverb_side: 0, adposition: 0, conjunction: 0, numbers: 0 },
            );
            if understood {
                match adverb {
                    Some(WordFunction::Ever) => Some(
                        (Operation::Persist(Box::new(vp)), tally, i),
                    ),
                    Some(WordFunction::Negation) => Some((vp.reverse(), tally, i)),
                    _ => pos_p(ws, at, lang, rng),
                }
            } else {
                Some((vp, tally, i))
            }
        },
        None => pos_p(ws, at, lang, rng),
    }
}

/// A numbered phrase: a leading number word repeats its body when the
/// number gate passes; a failed gate consumes the number without effect.
pub fn numbered_p(ws: &Vec<AnnotatedWord>, at: usize, lang: &Personality, rng: &mut Entropy) -> (r:
    Option<(Operation, Language, usize)>)
    requires
        at <= ws@.len(),
    ensures
        match r {
            Some(p) => at < p.2 <= ws@.len(),
            None => true,
        },
        spec_full_skills(*lang) ==> match r {
            Some(p) => spec_parse_numbered(va(ws@), at as int, lang.dictionary.ingredients)
                == Some((p.0@, p.2 as int)) && p.1@ == crate::behavior::ops::spec_cap_language(
                spec_tally_numbered(va(ws@), at as int, lang.dictionary.ingredients),
            ),
            None => spec_parse_numbered(va(ws@), at as int, lang.dictionary.ingredients)
                is None,
        },
        spec_no_stray_adverbs(va(ws@)) ==> ({
            let sp = spec_parse_numbered(va(ws@), at as int, lang.dictionary.ingredients);
            let tl = spec_tally_numbered(va(ws@), at as int, lang.dictionary.ingredients);
            &&& (r is Some) == (sp is Some)
            &&& (match r {
                Some(p) => p.2 == sp->Some_0.1 && spec_outcome_numbered(
                    va(ws@),
                    at as int,
                    lang.dictionary.ingredients,
                    *lang,
                    p.0@,
                ) && p.1@.adverbs == crate::behavior::ops::spec_cap(
                    tl.adverbs,
                ) && p.1@.conjunction == crate::behavior::ops::spec_cap(tl.conjunction)
                    && p.1@.numbers == crate::behavior::ops::spec_cap(tl.numbers)
                    && p.1@.adverb_side == 0,
                None => true,
            })
        }),
    decreases ws@.len() - at,
{
    let n: usize = ws.len();
    proof {
        assert(ws@.len() == n);
        lemma_tally_nonneg(va(ws@), at as int, lang.dictionary.ingredients);
        if (at as int) < ws@.len() {
            lemma_tally_nonneg(va(ws@), at + 1, lang.dictionary.ingredients);
        }
    }
    let number: Option<u32> = match word_with_def(ws, at, WordFunction::Number) {
        Some(aw) => {
            proof {
                assert(va(ws@)[at as int] == ws@[at as int]@);
            }
            match &aw.entry {
                Some(e) => {
                    let digits: Vec<char> = crate::grammar::chars_of(e.definition.as_str());
                    crate::grammar::parse_number(&digits)
                },
                None => None,
            }
        },
        None => None,
    };
    match number {
        Some(n) => {
            match numbered_p(ws, at + 1, lang, rng) {
                Some((vp, vl, i)) => {
                    let understood: bool = rng.chance(lang.numbers);
                    let tally: Language = vl.combine(
                        Language {
                            adverbs: 0,
                            adverb_side: 0,
                            adposition: 0,
                            conjunction: 0,
                            numbers: 1,
                        },
                    );
                    if understood {
                        Some((Operation::Repeat(n, Box::new(vp)), tally, i))
                    } else {
                        Some((vp, tally, i))
                    }
                },
                None => adv_p(ws, at, lang, rng),
            }
        },
        None => adv_p(ws, at, lang, rng),
    }
}

/// A conjoined phrase: right-recursive around the conjunction word. When
/// the conjunction gate fails, the conjunction is understood but only the
/// second conjunct's effect survives.
pub fn conjuncted_phrase(
    ws: &Vec<AnnotatedWord>,
    at: usize,
    lang: &Personality,
    rng: &mut Entropy,
) -> (r: Option<(Operation, Language, usize)>)
    requires
        at <= ws@.len(),
    ensures
        match r {
            Some(p) => at < p.2 <= ws@.len(),
            None => true,
        },
        spec_full_skills(*lang) ==> match r {
            Some(p) => spec_parse_conjunct(va(ws@), at as int, lang.dictionary.ingredients)
                == Some((p.0@, p.2 as int)) && p.1@ == crate::behavior::ops::spec_cap_language(
                spec_tally_conjunct(va(ws@), at as int, lang.dictionary.ingredients),
            ),
            None => spec_parse_conjunct(va(ws@), at as int, lang.dictionary.ingredients)
                is None,
        },
        spec_no_stray_adverbs(va(ws@)) ==> ({
            let sp = spec_parse_conjunct(va(ws@), at as int, lang.dictionary.ingredients);
            let tl = spec_tally_conjunct(va(ws@), at as int, lang.dictionary.ingredients);
            &&& (r is Some) == (sp is Some)
            &&& (match r {
                Some(p) => p.2 == sp->Some_0.1 && spec_outcome_conjunct(
                    va(ws@),
                    at as int,
                    lang.dictionary.ingredients,
                    *lang,
                    p.0@,
                ) && p.1@.adverbs == crate::behavior::ops::spec_cap(
                    tl.adverbs,
                ) && p.1@.conjunction == crate::behavior::ops::spec_cap(tl.conjunction)
                    && p.1@.numbers == crate::behavior::ops::spec_cap(tl.numbers)
                    && p.1@.adverb_side == 0,
                None => true,
            })
        }),
    decreases ws@.len() - at,
{
    let n: usize = ws.len();
    proof {
        assert(ws@.len() == n);
        lemma_tally_nonneg(va(ws@), at as int, lang.dictionary.ingredients);
    }
    match numbered_p(ws, at, lang, rng) {
        Some((a, al, i)) => {
            let more: bool = match word_with_def(ws, i, WordFunction::And) {
                Some(_) => true,
                None => false,
            };
            if more {
                match conjuncted_phrase(ws, i + 1, lang, rng) {
                    Some((b, bl, j)) => {
                        let understood: bool = rng.chance(lang.conjunction);
                        let tally: Language = al.combine(bl).combine(
                            Language {
                                adverbs: 0,
                                adverb_side: 0,
                                adposition: 0,
                                conjunction: 1,
                                numbers: 0,
                            },
                        );
                        if understood {
                            Some((Operation::Compound(Box::new(a), Box::new(b)), tally, j))
                        } else {
                            Some((b, tally, j))
                        }
                    },
                    None => Some((a, al, i)),
                }
            } else {
                Some((a, al, i))
            }
        },
        None => None,
    }
}

/// The construct tally of a whole sentence: greetings and affirmations
/// exercise nothing, and a conjoined phrase reports its own tallies.
pub open spec fn spec_tally_sentence(
    ws: Seq<AnnotatedWordModel>,
    tax: Ingredient,
) -> crate::behavior::personality::LanguageModel {
    if spec_has_def(ws, 0, WordFunction::Greeting) {
        crate::behavior::personality::spec_zero_language()
    } else if spec_has_def(ws, 0, WordFunction::Affirmation) {
        crate::behavior::personality::spec_zero_language()
    } else {
        spec_tally_conjunct(ws, 0, tax)
    }
}

/// A whole sentence: a greeting, an affirmation, or a conjoined phrase;
/// words past a successful parse are ignored.
pub fn sentence(ws: &Vec<AnnotatedWord>, lang: &Personality, rng: &mut Entropy) -> (r: Option<
    (Operation, Language),
>)
    ensures
        spec_has_def(va(ws@), 0, WordFunction::Greeting) ==> r is Some && r->Some_0.0@
            == OpModel::Finish && r->Some_0.1@ == crate::behavior::personality::spec_zero_language(),
        !spec_has_def(va(ws@), 0, WordFunction::Greeting) && spec_has_def(
            va(ws@),
            0,
            WordFunction::Affirmation,
        ) ==> r is Some && r->Some_0.0@ == OpModel::Affirm && r->Some_0.1@
            == crate::behavior::personality::spec_zero_language(),
        spec_full_skills(*lang) ==> match r {
            Some(p) => spec_parse_sentence(va(ws@), lang.dictionary.ingredients) == Some(p.0@)
                && p.1@ == crate::behavior::ops::spec_cap_language(
                spec_tally_sentence(va(ws@), lang.dictionary.ingredients),
            ),
            None => spec_parse_sentence(va(ws@), lang.dictionary.ingredients) is None,
        },
        spec_no_stray_adverbs(va(ws@)) ==> ({
            let tl = spec_tally_sentence(va(ws@), lang.dictionary.ingredients);
            &&& (r is Some) == (spec_parse_sentence(va(ws@), lang.dictionary.ingredients)
                is Some)
            &&& (match r {
                Some(p) => spec_outcome_sentence(
                    va(ws@),
                    lang.dictionary.ingredients,
                    *lang,
                    p.0@,
                ) && p.1@.adverbs == crate::behavior::ops::spec_cap(tl.adverbs)
                    && p.1@.conjunction == crate::behavior::ops::spec_cap(tl.conjunction)
                    && p.1@.numbers == crate::behavior::ops::spec_cap(tl.numbers)
                    && p.1@.adverb_side == 0,
                None => true,
            })
        }),
{
    match word_with_def(ws, 0, WordFunction::Greeting) {
        Some(_) => {
            return Some(
                (
                    Operation::Finish,
                    Language {
                        adverbs: 0,
                        adverb_side: 0,
                        adposition: 0,
                        conjunction: 0,
                        numbers: 0,
                    },
                ),
            );
        },
        None => {},
    }
    match word_with_def(ws, 0, WordFunction::Affirmation) {
        Some(_) => {
            return Some(
                (
                    Operation::Affirm,
                    Language {
                        adverbs: 0,
                        adverb_side: 0,
                        adposition: 0,
                        conjunction: 0,
                        numbers: 0,
                    },
                ),
            );
        },
        None => {},
    }
    match conjuncted_phrase(ws, 0, lang, rng) {
        Some((op, tally, _)) => Some((op, tally)),
        None => None,
    }
}

/// The lexicon's annotation of a whole token list.
pub open spec fn spec_annotated_all(
    es: Seq<(Seq<Syllable>, crate::grammar::EntryModel)>,
    tokens: Seq<Seq<Syllable>>,
) -> Seq<AnnotatedWordModel> {
    tokens.map_values(|w: Seq<Syllable>| crate::grammar::spec_annotated(es, w))
}

/// The tokens the retry keeps: those whose lexicon annotation carries a
/// role or an entry. Bare words are dropped before the second parse.
pub open spec fn spec_known_tokens(
    es: Seq<(Seq<Syllable>, crate::grammar::EntryModel)>,
    tokens: Seq<Seq<Syllable>>,
) -> Seq<Seq<Syllable>>
    decreases tokens.len(),
{
    if tokens.len() == 0 {
        tokens
    } else {
        let rest = spec_known_tokens(es, tokens.drop_last());
        let aw = crate::grammar::spec_annotated(es, tokens.last());
        if aw.role is Some || aw.entry is Some {
            rest.push(tokens.last())
        } else {
            rest
        }
    }
}

/// Parses a raw phrase deterministically: tokenize, annotate through the
/// lexicon, and parse; when that fails, the unknown words are dropped and
/// the sentence is tried once more.
pub fn sentence_new(input: &Vec<char>, lang: &Personality, rng: &mut Entropy) -> (r: Option<
    (Operation, Language),
>)
    ensures
        crate::grammar::spec_phrase_parse(input@) is None ==> r is None,
        spec_full_skills(*lang) ==> match crate::grammar::spec_phrase_parse(input@) {
            Some(tokens) => match spec_parse_sentence(
                spec_annotated_all(lang.dictionary.spec_entries(), tokens),
                lang.dictionary.ingredients,
            ) {
                Some(m) => r is Some && r->Some_0.0@ == m,
                None => true,
            },
            None => r is None,
        },
        spec_full_skills(*lang) ==> match crate::grammar::spec_phrase_parse(input@) {
            Some(tokens) => ({
                let es = lang.dictionary.spec_entries();
                let tax = lang.dictionary.ingredients;
                (r is None) == (spec_parse_sentence(spec_annotated_all(es, tokens), tax) is None
                    && spec_parse_sentence(
                    spec_annotated_all(es, spec_known_tokens(es, tokens)),
                    tax,
                ) is None)
            }),
            None => r is None,
        },
{
    let words: Vec<Word> = match crate::grammar::phrase(input) {
        Some(ws) => ws,
        None => {
            return None;
        },
    };
    let ghost tokens: Seq<Seq<Syllable>> = crate::grammar::views_of_words(words@);
    let tagged: Vec<AnnotatedWord> = crate::grammar::annotate(words, &lang.dictionary);
    proof {
        assert(spec_annotated_all(lang.dictionary.spec_entries(), tokens).len() == tokens.len());
        assert(va(tagged@) =~~= spec_annotated_all(lang.dictionary.spec_entries(), tokens));
    }
    match sentence(&tagged, lang, rng) {
        Some(p) => Some(p),
        None => {
            let ghost es = lang.dictionary.spec_entries();
            let mut known: Vec<AnnotatedWord> = Vec::new();
            let mut i: usize = 0;
            proof {
                assert(tokens.take(0) =~~= Seq::<Seq<Syllable>>::empty());
                assert(va(known@) =~~= spec_annotated_all(
                    es,
                    spec_known_tokens(es, tokens.take(0)),
                ));
            }
            while i < tagged.len()
                invariant
                    i <= tagged@.len(),
                    tagged@.len() == tokens.len(),
                    es == lang.dictionary.spec_entries(),
                    forall|k: int|
                        0 <= k < tagged@.len() ==> (#[trigger] tagged@[k])@
                            == crate::grammar::spec_annotated(es, tokens[k]),
                    va(known@) == spec_annotated_all(es, spec_known_tokens(es, tokens.take(
                        i as int,
                    ))),
                decreases tagged@.len() - i,
            {
                let keep: bool = match (&tagged[i].role, &tagged[i].entry) {
                    (None, None) => false,
                    _ => true,
                };
                let ghost kept_before = spec_known_tokens(es, tokens.take(i as int));
                proof {
                    assert(tokens.take(i + 1).drop_last() =~~= tokens.take(i as int));
                    assert(tokens.take(i + 1).last() == tokens[i as int]);
                }
                if keep {
                    let ghost before: Seq<AnnotatedWord> = known@;
                    known.push(tagged[i].clone());
                    proof {
                        assert(spec_known_tokens(es, tokens.take(i + 1)) =~~= kept_before.push(
                            tokens[i as int],
                        ));
                        assert(spec_annotated_all(es, kept_before).len() == kept_before.len());
                        assert forall|k: int|
                            0 <= k < va(known@).len() implies #[trigger] va(known@)[k]
                            == spec_annotated_all(es, kept_before.push(tokens[i as int]))[k] by {
                            assert(va(known@)[k] == known@[k]@);
                            assert(spec_annotated_all(es, kept_before.push(tokens[i as int]))[k]
                                == crate::grammar::spec_annotated(
                                es,
                                kept_before.push(tokens[i as int])[k],
                            ));
                            if k < before.len() {
                                assert(known@[k] == before[k]);
                                assert(va(before)[k] == before[k]@);
                                assert(kept_before.push(tokens[i as int])[k] == kept_before[k]);
                                assert(spec_annotated_all(es, kept_before)[k]
                                    == crate::grammar::spec_annotated(es, kept_before[k]));
                            } else {
                                assert(kept_before.push(tokens[i as int])[k]
                                    == tokens[i as int]);
                                assert(known@[k] == before.push(known@[k]).last());
                            }
                        }
                        assert(va(known@) =~~= spec_annotated_all(
                            es,
                            spec_known_tokens(es, tokens.take(i + 1)),
                        ));
                    }
                } else {
                    proof {
                        assert(spec_known_tokens(es, tokens.take(i + 1)) =~~= kept_before);
                    }
                }
                i = i + 1;
            }
            proof {
                assert(tokens.take(tokens.len() as int) =~~= tokens);
            }
            sentence(&known, lang, rng)
        },
    }
}

/// A full parse: the operation, the construct tally it exercised, and the
/// annotation under which the phrase was read.
#[derive(Debug)]
pub struct FullParse {
    pub operation: Operation,
    pub lang: Language,
    pub lex: Vec<AnnotatedWord>,
}

/// The weights of a candidate-meaning list.
pub open spec fn spec_weight_list(ws: Seq<(crate::grammar::EntryModel, u32)>) -> Seq<u32> {
    ws.map_values(|p: (crate::grammar::EntryModel, u32)| p.1)
}

/// Whether an annotation was sampled from the agent's meaning cloud: the
/// surface words are exactly the given tokens, each reading pairs a
/// positive-weight candidate of its word's distribution with that
/// candidate's role, and a word goes unread only when its distribution has
/// no usable weight at all.
pub open spec fn spec_lex_sampled(
    cloud: Seq<(Seq<Syllable>, Seq<(crate::grammar::EntryModel, u32)>)>,
    es: Seq<(Seq<Syllable>, crate::grammar::EntryModel)>,
    tokens: Seq<Seq<Syllable>>,
    lex: Seq<AnnotatedWordModel>,
) -> bool {
    &&& lex.len() == tokens.len()
    &&& forall|k: int| 0 <= k < lex.len() ==> (#[trigger] lex[k]).word == tokens[k]
    &&& forall|k: int|
        0 <= k < lex.len() ==> (match (#[trigger] lex[k]).entry {
            Some(e) => (exists|j: int|
                0 <= j < crate::behavior::personality::spec_cloud_get(cloud, es, tokens[k]).len()
                    && (#[trigger] crate::behavior::personality::spec_cloud_get(
                    cloud,
                    es,
                    tokens[k],
                )[j]).1 > 0 && crate::behavior::personality::spec_cloud_get(
                    cloud,
                    es,
                    tokens[k],
                )[j].0 == e) && lex[k].role == Some(e.role),
            None => lex[k].role is None && (crate::random::sum_weights(
                spec_weight_list(
                    crate::behavior::personality::spec_cloud_get(cloud, es, tokens[k]),
                ),
            ) > u64::MAX || (forall|j: int|
                0 <= j < crate::behavior::personality::spec_cloud_get(
                    cloud,
                    es,
                    tokens[k],
                ).len() ==> (#[trigger] crate::behavior::personality::spec_cloud_get(
                    cloud,
                    es,
                    tokens[k],
                )[j]).1 == 0)),
        })
}

/// Annotates each word by sampling its meaning from the agent's cloud:
/// candidates are drawn with probability proportional to their learned
/// weights, so unseen words read as any dictionary entry with equal chance.
/// A word stays bare only when no candidate carries positive weight (or
/// the weights overflow one word).
pub fn prob_annotate(words: &Vec<Word>, context: &Personality, rng: &mut Entropy) -> (r: Vec<
    AnnotatedWord,
>)
    ensures
        spec_lex_sampled(
            crate::behavior::personality::spec_cloud_view(context.cloud@),
            context.dictionary.spec_entries(),
            crate::grammar::views_of_words(words@),
            va(r@),
        ),
{
    let ghost cloudv = crate::behavior::personality::spec_cloud_view(context.cloud@);
    let ghost es = context.dictionary.spec_entries();
    let ghost tokens = crate::grammar::views_of_words(words@);
    let mut out: Vec<AnnotatedWord> = Vec::new();
    let mut i: usize = 0;
    proof {
        assert(tokens.len() == words@.len());
        assert(tokens.take(0) =~~= Seq::<Seq<Syllable>>::empty());
        assert(va(out@).len() == 0);
    }
    while i < words.len()
        invariant
            i <= words@.len(),
            cloudv == crate::behavior::personality::spec_cloud_view(context.cloud@),
            es == context.dictionary.spec_entries(),
            tokens == crate::grammar::views_of_words(words@),
            tokens.len() == words@.len(),
            spec_lex_sampled(cloudv, es, tokens.take(i as int), va(out@)),
        decreases words@.len() - i,
    {
        let word: &Word = &words[i];
        proof {
            assert(tokens[i as int] == words@[i as int]@);
        }
        let candidates: Vec<(crate::grammar::DictionaryEntry, u32)> = context.get_cloud_entry(
            word,
        );
        let ghost cget = crate::behavior::personality::spec_cloud_get(cloudv, es, word@);
        let mut weights: Vec<u32> = Vec::new();
        let mut j: usize = 0;
        proof {
            assert(crate::behavior::personality::spec_weights_view(candidates@).len()
                == candidates@.len());
        }
        while j < candidates.len()
            invariant
                j <= candidates@.len(),
                weights@.len() == j,
                forall|x: int| 0 <= x < j ==> weights@[x] == candidates@[x].1,
            decreases candidates@.len() - j,
        {
            weights.push(candidates[j].1);
            j = j + 1;
        }
        proof {
            assert(weights@ =~~= spec_weight_list(cget)) by {
                assert(spec_weight_list(cget).len() == cget.len());
                assert forall|x: int| 0 <= x < cget.len() implies #[trigger] spec_weight_list(
                    cget,
                )[x] == weights@[x] by {
                    assert(crate::behavior::personality::spec_weights_view(candidates@)[x] == (
                        candidates@[x].0@,
                        candidates@[x].1,
                    ));
                    assert(cget[x] == crate::behavior::personality::spec_weights_view(
                        candidates@,
                    )[x]);
                }
            }
        }
        let aw: AnnotatedWord = match rng.pick_weighted(&weights) {
            Some(pick) => {
                let entry: crate::grammar::DictionaryEntry = candidates[pick].0.clone();
                let role: WordRole = entry.role;
                let built: AnnotatedWord = AnnotatedWord {
                    word: word.clone(),
                    role: Some(role),
                    entry: Some(entry),
                };
                proof {
                    assert(crate::behavior::personality::spec_weights_view(candidates@)[pick as int]
                        == (candidates@[pick as int].0@, candidates@[pick as int].1));
                    assert(cget[pick as int].1 == weights@[pick as int]) by {
                        assert(spec_weight_list(cget)[pick as int] == cget[pick as int].1);
                    }
                    assert(cget[pick as int].1 > 0);
                    assert(built@.entry == Some(cget[pick as int].0));
                    assert(built@.role == Some(cget[pick as int].0.role));
                }
                built
            },
            None => {
                let built: AnnotatedWord = AnnotatedWord {
                    word: word.clone(),
                    role: None,
                    entry: None,
                };
                proof {
                    assert forall|x: int| 0 <= x < cget.len() implies (#[trigger] cget[x]).1
                        == weights@[x] by {
                        assert(spec_weight_list(cget)[x] == cget[x].1);
                    }
                }
                built
            },
        };
        proof {
            assert(aw@.word == tokens[i as int]);
            assert(match aw@.entry {
                Some(e) => (exists|j: int|
                    0 <= j < cget.len() && (#[trigger] cget[j]).1 > 0 && cget[j].0 == e)
                    && aw@.role == Some(e.role),
                None => aw@.role is None && (crate::random::sum_weights(spec_weight_list(cget))
                    > u64::MAX || (forall|j: int|
                    0 <= j < cget.len() ==> (#[trigger] cget[j]).1 == 0)),
            });
        }
        let ghost before: Seq<AnnotatedWord> = out@;
        out.push(aw);
        proof {
            assert(va(out@).len() == before.len() + 1);
            assert(spec_lex_sampled(cloudv, es, tokens.take(i + 1), va(out@))) by {
                assert(tokens.take(i + 1).len() == i + 1);
                assert forall|k: int| 0 <= k < va(out@).len() implies (#[trigger] va(out@)[k]).word
                    == tokens.take(i + 1)[k] && va(out@)[k] == (if k < before.len() {
                    va(before)[k]
                } else {
                    aw@
                }) by {
                    assert(va(out@)[k] == out@[k]@);
                    if k < before.len() {
                        assert(out@[k] == before[k]);
                        assert(va(before)[k] == before[k]@);
                        assert(tokens.take(i + 1)[k] == tokens.take(i as int)[k]);
                    } else {
                        assert(out@[k] == before.push(aw)[k]);
                        assert(tokens.take(i + 1)[k] == tokens[i as int]);
                    }
                }
                assert forall|k: int|
                    0 <= k < va(out@).len() implies (match (#[trigger] va(out@)[k]).entry {
                    Some(e) => (exists|j: int|
                        0 <= j < crate::behavior::personality::spec_cloud_get(
                            cloudv,
                            es,
                            tokens.take(i + 1)[k],
                        ).len() && (#[trigger] crate::behavior::personality::spec_cloud_get(
                            cloudv,
                            es,
                            tokens.take(i + 1)[k],
                        )[j]).1 > 0 && crate::behavior::personality::spec_cloud_get(
                            cloudv,
                            es,
                            tokens.take(i + 1)[k],
                        )[j].0 == e) && va(out@)[k].role == Some(e.role),
                    None => va(out@)[k].role is None && (crate::random::sum_weights(
                        spec_weight_list(
                            crate::behavior::personality::spec_cloud_get(
                                cloudv,
                                es,
                                tokens.take(i + 1)[k],
                            ),
                        ),
                    ) > u64::MAX || (forall|j: int|
                        0 <= j < crate::behavior::personality::spec_cloud_get(
                            cloudv,
                            es,
                            tokens.take(i + 1)[k],
                        ).len() ==> (#[trigger] crate::behavior::personality::spec_cloud_get(
                            cloudv,
                            es,
                            tokens.take(i + 1)[k],
                        )[j]).1 == 0)),
                }) by {
                    if k < before.len() {
                        assert(tokens.take(i + 1)[k] == tokens.take(i as int)[k]);
                    } else {
                        assert(tokens.take(i + 1)[k] == tokens[i as int]);
                        assert(va(out@)[k] == aw@);
                    }
                }
            }
        }
        i = i + 1;
    }
    proof {
        assert(tokens.take(tokens.len() as int) =~~= tokens);
    }
    out
}

/// Whether a word's meaning distribution forces a single reading: exactly
/// one candidate carries positive weight, and the weights fit one word.
pub open spec fn spec_single_reading(
    cloud: Seq<(Seq<Syllable>, Seq<(crate::grammar::EntryModel, u32)>)>,
    es: Seq<(Seq<Syllable>, crate::grammar::EntryModel)>,
    t: Seq<Syllable>,
) -> bool {
    &&& (exists|j: int|
        0 <= j < crate::behavior::personality::spec_cloud_get(cloud, es, t).len() && (
        #[trigger] crate::behavior::personality::spec_cloud_get(cloud, es, t)[j]).1 > 0 && (
        forall|x: int|
            0 <= x < crate::behavior::personality::spec_cloud_get(cloud, es, t).len() && (
            #[trigger] crate::behavior::personality::spec_cloud_get(cloud, es, t)[x]).1 > 0
                ==> x == j))
    &&& crate::random::sum_weights(
        spec_weight_list(crate::behavior::personality::spec_cloud_get(cloud, es, t)),
    ) <= u64::MAX
}

/// Forced readings leave the sampler no choice: any two annotations
/// sampled from distributions with a single positive candidate per word
/// are one and the same.
pub proof fn lemma_sampled_unique(
    cloud: Seq<(Seq<Syllable>, Seq<(crate::grammar::EntryModel, u32)>)>,
    es: Seq<(Seq<Syllable>, crate::grammar::EntryModel)>,
    tokens: Seq<Seq<Syllable>>,
    lex1: Seq<AnnotatedWordModel>,
    lex2: Seq<AnnotatedWordModel>,
)
    requires
        forall|k: int| 0 <= k < tokens.len() ==> spec_single_reading(cloud, es, #[trigger] tokens[k]),
        spec_lex_sampled(cloud, es, tokens, lex1),
        spec_lex_sampled(cloud, es, tokens, lex2),
    ensures
        lex1 == lex2,
{
    assert forall|k: int| 0 <= k < lex1.len() implies #[trigger] lex1[k] == lex2[k] by {
        let cget = crate::behavior::personality::spec_cloud_get(cloud, es, tokens[k]);
        assert(lex1[k].entry is Some && lex2[k].entry is Some) by {
            if lex1[k].entry is None || lex2[k].entry is None {
                let j: int = choose|j: int|
                    0 <= j < cget.len() && (#[trigger] cget[j]).1 > 0 && (forall|x: int|
                        0 <= x < cget.len() && (#[trigger] cget[x]).1 > 0 ==> x == j);
            }
        }
        let j1: int = choose|j: int|
            0 <= j < cget.len() && (#[trigger] cget[j]).1 > 0 && cget[j].0
                == lex1[k].entry->Some_0;
        let j2: int = choose|j: int|
            0 <= j < cget.len() && (#[trigger] cget[j]).1 > 0 && cget[j].0
                == lex2[k].entry->Some_0;
        let ju: int = choose|j: int|
            0 <= j < cget.len() && (#[trigger] cget[j]).1 > 0 && (forall|x: int|
                0 <= x < cget.len() && (#[trigger] cget[x]).1 > 0 ==> x == j);
        assert(j1 == ju && j2 == ju);
    }
    assert(lex1 =~~= lex2);
}

/// Parses a raw phrase probabilistically:/// Parses a raw phrase probabilistically: annotations are re-sampled from
/// the meaning cloud until one yields a grammatical sentence, up to the
/// given retry budget. The successful annotation is returned with the
/// parse, for later reinforcement.
pub fn prob_sentence_new(
    input: &Vec<char>,
    lang: &Personality,
    rng: &mut Entropy,
    retries: u32,
) -> (r: Option<FullParse>)
    ensures
        match r {
            Some(fp) => crate::grammar::spec_phrase_parse(input@) is Some && spec_lex_sampled(
                crate::behavior::personality::spec_cloud_view(lang.cloud@),
                lang.dictionary.spec_entries(),
                crate::grammar::spec_phrase_parse(input@)->Some_0,
                va(fp.lex@),
            ) && (spec_full_skills(*lang) ==> spec_parse_sentence(
                va(fp.lex@),
                lang.dictionary.ingredients,
            ) == Some(fp.operation@)) && (spec_no_stray_adverbs(va(fp.lex@))
                ==> spec_outcome_sentence(
                va(fp.lex@),
                lang.dictionary.ingredients,
                *lang,
                fp.operation@,
            )),
            None => true,
        },
        retries >= 1 && spec_full_skills(*lang) && crate::grammar::spec_phrase_parse(input@)
            is Some && (forall|k: int|
            0 <= k < crate::grammar::spec_phrase_parse(input@)->Some_0.len()
                ==> spec_single_reading(
                crate::behavior::personality::spec_cloud_view(lang.cloud@),
                lang.dictionary.spec_entries(),
                #[trigger] crate::grammar::spec_phrase_parse(input@)->Some_0[k],
            )) ==> (forall|lex: Seq<AnnotatedWordModel>|
            spec_lex_sampled(
                crate::behavior::personality::spec_cloud_view(lang.cloud@),
                lang.dictionary.spec_entries(),
                crate::grammar::spec_phrase_parse(input@)->Some_0,
                lex,
            ) ==> (r is Some) == (#[trigger] spec_parse_sentence(
                lex,
                lang.dictionary.ingredients,
            ) is Some)),
{
    let words: Vec<Word> = match crate::grammar::phrase(input) {
        Some(ws) => ws,
        None => {
            return None;
        },
    };
    let ghost cloudv = crate::behavior::personality::spec_cloud_view(lang.cloud@);
    let ghost es = lang.dictionary.spec_entries();
    let ghost tokens = crate::grammar::views_of_words(words@);
    let ghost tax = lang.dictionary.ingredients;
    let mut attempt: u32 = 0;
    while attempt < retries
        invariant
            crate::grammar::spec_phrase_parse(input@) == Some(tokens),
            cloudv == crate::behavior::personality::spec_cloud_view(lang.cloud@),
            es == lang.dictionary.spec_entries(),
            tax == lang.dictionary.ingredients,
            tokens == crate::grammar::views_of_words(words@),
            attempt > 0 && spec_full_skills(*lang) && (forall|k: int|
                0 <= k < tokens.len() ==> spec_single_reading(cloudv, es, #[trigger] tokens[k]))
                ==> (forall|lex: Seq<AnnotatedWordModel>|
                spec_lex_sampled(cloudv, es, tokens, lex) ==> #[trigger] spec_parse_sentence(
                    lex,
                    tax,
                ) is None),
        decreases retries - attempt,
    {
        let tagged: Vec<AnnotatedWord> = prob_annotate(&words, lang, rng);
        match sentence(&tagged, lang, rng) {
            Some((op, tally)) => {
                proof {
                    if spec_full_skills(*lang) && (forall|k: int|
                        0 <= k < tokens.len() ==> spec_single_reading(
                            cloudv,
                            es,
                            #[trigger] tokens[k],
                        )) {
                        assert forall|lex: Seq<AnnotatedWordModel>|
                            spec_lex_sampled(cloudv, es, tokens, lex) implies #[trigger] spec_parse_sentence(
                            lex,
                            tax,
                        ) is Some by {
                            lemma_sampled_unique(cloudv, es, tokens, lex, va(tagged@));
                        }
                    }
                }
                return Some(FullParse { operation: op, lang: tally, lex: tagged });
            },
            None => {
                proof {
                    if spec_full_skills(*lang) && (forall|k: int|
                        0 <= k < tokens.len() ==> spec_single_reading(
                            cloudv,
                            es,
                            #[trigger] tokens[k],
                        )) {
                        assert forall|lex: Seq<AnnotatedWordModel>|
                            spec_lex_sampled(cloudv, es, tokens, lex) implies #[trigger] spec_parse_sentence(
                            lex,
                            tax,
                        ) is None by {
                            lemma_sampled_unique(cloudv, es, tokens, lex, va(tagged@));
                        }
                    }
                }
            },
        }
        attempt = attempt + 1;
    }
    None
}

/// The shapes the core clause can produce.
pub open spec fn gram_clause(m: OpModel) -> bool {
    m is Add || m is Ensure
}

/// The shapes an adverb phrase can produce: clauses, removals, and
/// persistent wrappings of such.
pub open spec fn gram_adv(m: OpModel) -> bool
    decreases m,
{
    match m {
        OpModel::Remove(_) => true,
        OpModel::Persist(x) => gram_adv(*x),
        _ => gram_clause(m),
    }
}

/// The shapes a numbered phrase can produce.
pub open spec fn gram_numbered(m: OpModel) -> bool
    decreases m,
{
    match m {
        OpModel::Repeat(n, x) => 0 <= n <= u32::MAX && gram_numbered(*x),
        _ => gram_adv(m),
    }
}

/// The shapes a conjoined phrase can produce.
pub open spec fn gram_conjunct(m: OpModel) -> bool
    decreases m,
{
    match m {
        OpModel::Compound(a, b) => gram_numbered(*a) && gram_conjunct(*b),
        _ => gram_numbered(m),
    }
}

/// The operations the grammar can produce at all.
pub open spec fn spec_grammatical(m: OpModel) -> bool {
    m is Finish || m is Affirm || gram_conjunct(m)
}

/// The role an entry's grammatical category dictates, where the grammar
/// cares: verbs desire and have, prepositions anchor, adverbs negate and
/// persist.
pub open spec fn spec_role_ok(e: crate::grammar::EntryModel) -> bool {
    &&& (e.function == WordFunction::Desire ==> e.role == WordRole::Verb)
    &&& (e.function == WordFunction::Have ==> e.role == WordRole::Verb)
    &&& (e.function == WordFunction::Before ==> e.role == WordRole::Preposition)
    &&& (e.function == WordFunction::After ==> e.role == WordRole::Preposition)
    &&& (e.function == WordFunction::Negation ==> e.role == WordRole::Adverb)
    &&& (e.function == WordFunction::Ever ==> e.role == WordRole::Adverb)
}

/// A lexicon whose entries all carry the roles their categories dictate.
pub open spec fn spec_roles_coherent(es: Seq<(Seq<Syllable>, crate::grammar::EntryModel)>) -> bool {
    forall|k: int| 0 <= k < es.len() ==> spec_role_ok((#[trigger] es[k]).1)
}

/// The first word found for a category is a stored entry carrying it.
proof fn lemma_find_def_member(es: Seq<(Seq<Syllable>, crate::grammar::EntryModel)>, f: WordFunction)
    requires
        crate::grammar::spec_find_def(es, f) is Some,
    ensures
        crate::grammar::spec_find_def(es, f)->Some_0.1.function == f,
        exists|k: int|
            0 <= k < es.len() && #[trigger] es[k] == crate::grammar::spec_find_def(es, f)->Some_0,
    decreases es.len(),
{
    if es.len() > 0 && es[0].1.function != f {
        lemma_find_def_member(es.drop_first(), f);
        let k: int = choose|k: int|
            0 <= k < es.drop_first().len() && #[trigger] es.drop_first()[k]
                == crate::grammar::spec_find_def(es.drop_first(), f)->Some_0;
        assert(es[k + 1] == es.drop_first()[k]);
    }
}

/// The first word found for a number is a stored number entry denoting it.
proof fn lemma_find_num_member(es: Seq<(Seq<Syllable>, crate::grammar::EntryModel)>, n: u32)
    requires
        crate::grammar::spec_find_num(es, n) is Some,
    ensures
        crate::grammar::spec_find_num(es, n)->Some_0.1.function == WordFunction::Number,
        spec_number(crate::grammar::spec_find_num(es, n)->Some_0.1.definition) == Some(n),
        exists|k: int|
            0 <= k < es.len() && #[trigger] es[k] == crate::grammar::spec_find_num(es, n)->Some_0,
    decreases es.len(),
{
    if es.len() > 0 && !(es[0].1.function == WordFunction::Number && spec_number(
        es[0].1.definition,
    ) == Some(n)) {
        lemma_find_num_member(es.drop_first(), n);
        let k: int = choose|k: int|
            0 <= k < es.drop_first().len() && #[trigger] es.drop_first()[k]
                == crate::grammar::spec_find_num(es.drop_first(), n)->Some_0;
        assert(es[k + 1] == es.drop_first()[k]);
    }
}

/// The word encoding a category: one annotated word whose reading is that
/// category, under the role it dictates.
proof fn lemma_def_word_facts(
    es: Seq<(Seq<Syllable>, crate::grammar::EntryModel)>,
    f: WordFunction,
)
    requires
        spec_roles_coherent(es),
        crate::behavior::ops::spec_def_word(es, f) is Some,
    ensures
        crate::behavior::ops::spec_def_word(es, f)->Some_0.len() == 1,
        ({
            let aw = crate::behavior::ops::spec_def_word(es, f)->Some_0[0];
            spec_definition(aw) == Some(f) && aw.entry is Some && aw.role == Some(
                aw.entry->Some_0.role,
            ) && spec_role_ok(aw.entry->Some_0)
        }),
{
    lemma_find_def_member(es, f);
}

/// The word encoding a number: one annotated number word denoting it.
proof fn lemma_num_word_facts(es: Seq<(Seq<Syllable>, crate::grammar::EntryModel)>, n: u32)
    requires
        crate::behavior::ops::spec_num_word(es, n) is Some,
    ensures
        crate::behavior::ops::spec_num_word(es, n)->Some_0.len() == 1,
        ({
            let aw = crate::behavior::ops::spec_num_word(es, n)->Some_0[0];
            spec_definition(aw) == Some(WordFunction::Number) && aw.entry is Some && spec_number(
                aw.entry->Some_0.definition,
            ) == Some(n)
        }),
{
    lemma_find_num_member(es, n);
}

/// The word naming an ingredient: one noun whose morpheme walk, in a
/// well-formed taxonomy, lands back on the very name.
proof fn lemma_ingr_word_facts(tax: Ingredient, name: Seq<char>)
    requires
        crate::sandwich::spec_tree_wf(tax),
        crate::behavior::ops::spec_ingr_word(tax, name) is Some,
    ensures
        crate::behavior::ops::spec_ingr_word(tax, name)->Some_0.len() == 1,
        ({
            let aw = crate::behavior::ops::spec_ingr_word(tax, name)->Some_0[0];
            spec_definition(aw) == Some(WordFunction::Ingredient) && aw.role == Some(
                WordRole::Noun,
            ) && spec_from_word(tax, aw.word).name@ == name
        }),
{
    crate::sandwich::lemma_ingredient_path_roundtrip(tax, name);
}

/// The shape of a category word: one annotated word reading as the
/// category.
proof fn lemma_def_word_shape(
    es: Seq<(Seq<Syllable>, crate::grammar::EntryModel)>,
    f: WordFunction,
)
    requires
        spec_def_word(es, f) is Some,
    ensures
        spec_def_word(es, f)->Some_0.len() == 1,
        spec_definition(spec_def_word(es, f)->Some_0[0]) == Some(f),
{
    lemma_find_def_member(es, f);
    let p = crate::grammar::spec_find_def(es, f)->Some_0;
    let aw = AnnotatedWordModel { word: p.0, role: Some(p.1.role), entry: Some(p.1) };
    assert(spec_def_word(es, f) == Some(seq![aw]));
    assert(seq![aw][0] == aw);
}

/// The shape of a number word: one annotated word reading as a number.
proof fn lemma_num_word_shape(es: Seq<(Seq<Syllable>, crate::grammar::EntryModel)>, n: u32)
    requires
        spec_num_word(es, n) is Some,
    ensures
        spec_num_word(es, n)->Some_0.len() == 1,
        spec_definition(spec_num_word(es, n)->Some_0[0]) == Some(WordFunction::Number),
        spec_num_word(es, n)->Some_0[0].entry is Some,
        spec_number(spec_num_word(es, n)->Some_0[0].entry->Some_0.definition) == Some(n),
{
    lemma_find_num_member(es, n);
    let p = crate::grammar::spec_find_num(es, n)->Some_0;
    let aw = AnnotatedWordModel { word: p.0, role: Some(p.1.role), entry: Some(p.1) };
    assert(spec_num_word(es, n) == Some(seq![aw]));
    assert(seq![aw][0] == aw);
}

/// The shape of an ingredient word: one noun reading as an ingredient.
proof fn lemma_ingr_word_shape(tax: Ingredient, name: Seq<char>)
    requires
        spec_ingr_word(tax, name) is Some,
    ensures
        spec_ingr_word(tax, name)->Some_0.len() == 1,
        spec_definition(spec_ingr_word(tax, name)->Some_0[0]) == Some(WordFunction::Ingredient),
        spec_ingr_word(tax, name)->Some_0[0].role == Some(WordRole::Noun),
        spec_ingr_word(tax, name)->Some_0[0].word == crate::sandwich::spec_word_for(
            tax,
            name,
        )->Some_0,
{
    let aw = AnnotatedWordModel {
        word: crate::sandwich::spec_word_for(tax, name)->Some_0,
        role: Some(WordRole::Noun),
        entry: Some(
            crate::grammar::EntryModel {
                function: WordFunction::Ingredient,
                role: WordRole::Noun,
                definition: name,
            },
        ),
    };
    assert(spec_ingr_word(tax, name) == Some(seq![aw]));
    assert(seq![aw][0] == aw);
}

/// The grammatical category of the first word of a conjoinable encoding.
pub open spec fn spec_first_fun(m: OpModel) -> WordFunction
    decreases m,
{
    match m {
        OpModel::Remove(_) => WordFunction::Negation,
        OpModel::Persist(_) => WordFunction::Ever,
        OpModel::Repeat(_, _) => WordFunction::Number,
        OpModel::Compound(a, _) => spec_first_fun(*a),
        _ => WordFunction::Ingredient,
    }
}

/// The first word of any conjoinable encoding reads as an ingredient, a
/// negation, an ever word, or a number — never as a greeting, an
/// affirmation, an adverb it is not, or a conjunction.
proof fn lemma_first_word(
    m: OpModel,
    es: Seq<(Seq<Syllable>, crate::grammar::EntryModel)>,
    tax: Ingredient,
)
    requires
        gram_conjunct(m),
        spec_encode(m, es, tax) is Some,
    ensures
        spec_encode(m, es, tax)->Some_0.len() > 0,
        spec_definition(spec_encode(m, es, tax)->Some_0[0]) == Some(spec_first_fun(m)),
    decreases m,
{
    let e = spec_encode(m, es, tax)->Some_0;
    match m {
        OpModel::Add(n, rel) => {
            let core = crate::behavior::ops::spec_opt_cat(
                spec_ingr_word(tax, n),
                spec_def_word(es, WordFunction::Desire),
            );
            assert(spec_ingr_word(tax, n) is Some);
            lemma_ingr_word_shape(tax, n);
            match rel {
                RelModel::Top => {
                    assert(e == spec_ingr_word(tax, n)->Some_0 + spec_def_word(
                        es,
                        WordFunction::Desire,
                    )->Some_0);
                    assert(e[0] == spec_ingr_word(tax, n)->Some_0[0]);
                },
                RelModel::Before(o) => {
                    assert(spec_ingr_word(tax, o) is Some);
                    lemma_ingr_word_shape(tax, o);
                    assert(e == (spec_ingr_word(tax, o)->Some_0 + spec_def_word(
                        es,
                        WordFunction::Before,
                    )->Some_0) + core->Some_0);
                    assert(e[0] == spec_ingr_word(tax, o)->Some_0[0]);
                },
                RelModel::After(o) => {
                    assert(spec_ingr_word(tax, o) is Some);
                    lemma_ingr_word_shape(tax, o);
                    assert(e == (spec_ingr_word(tax, o)->Some_0 + spec_def_word(
                        es,
                        WordFunction::After,
                    )->Some_0) + core->Some_0);
                    assert(e[0] == spec_ingr_word(tax, o)->Some_0[0]);
                },
            }
        },
        OpModel::Ensure(n) => {
            assert(spec_ingr_word(tax, n) is Some);
            lemma_ingr_word_shape(tax, n);
            assert(e == spec_ingr_word(tax, n)->Some_0 + spec_def_word(
                es,
                WordFunction::Have,
            )->Some_0);
            assert(e[0] == spec_ingr_word(tax, n)->Some_0[0]);
        },
        OpModel::Remove(n) => {
            assert(spec_def_word(es, WordFunction::Negation) is Some);
            lemma_def_word_shape(es, WordFunction::Negation);
            assert(e[0] == spec_def_word(es, WordFunction::Negation)->Some_0[0]);
        },
        OpModel::Persist(x) => {
            assert(spec_def_word(es, WordFunction::Ever) is Some);
            lemma_def_word_shape(es, WordFunction::Ever);
            assert(e[0] == spec_def_word(es, WordFunction::Ever)->Some_0[0]);
        },
        OpModel::Repeat(n, x) => {
            assert(spec_num_word(es, n as u32) is Some);
            lemma_num_word_shape(es, n as u32);
            assert(e[0] == spec_num_word(es, n as u32)->Some_0[0]);
        },
        OpModel::Compound(a, b) => {
            assert(spec_encode(*a, es, tax) is Some);
            lemma_first_word(*a, es, tax);
            assert(e[0] == spec_encode(*a, es, tax)->Some_0[0]);
        },
        _ => {},
    }
}

use crate::behavior::ops::{spec_def_word, spec_encode, spec_ingr_word, spec_num_word};

/// Whether the words from position `at` on are exactly the encoding of `m`.
pub open spec fn spec_enc_at(
    m: OpModel,
    es: Seq<(Seq<Syllable>, crate::grammar::EntryModel)>,
    tax: Ingredient,
    ws: Seq<AnnotatedWordModel>,
    at: int,
) -> bool {
    &&& spec_encode(m, es, tax) is Some
    &&& 0 <= at
    &&& at + spec_encode(m, es, tax)->Some_0.len() <= ws.len()
    &&& ws.subrange(at, at + spec_encode(m, es, tax)->Some_0.len() as int) == spec_encode(
        m,
        es,
        tax,
    )->Some_0
}

/// The length of an encoding.
pub open spec fn spec_enc_len(
    m: OpModel,
    es: Seq<(Seq<Syllable>, crate::grammar::EntryModel)>,
    tax: Ingredient,
) -> int {
    spec_encode(m, es, tax)->Some_0.len() as int
}

/// The words under an encoding are the encoding's words.
proof fn lemma_enc_index(
    m: OpModel,
    es: Seq<(Seq<Syllable>, crate::grammar::EntryModel)>,
    tax: Ingredient,
    ws: Seq<AnnotatedWordModel>,
    at: int,
)
    requires
        spec_enc_at(m, es, tax, ws, at),
    ensures
        forall|k: int|
            0 <= k < spec_enc_len(m, es, tax) ==> ws[at + k] == spec_encode(
                m,
                es,
                tax,
            )->Some_0[k],
{
    let e = spec_encode(m, es, tax)->Some_0;
    assert forall|k: int| 0 <= k < e.len() implies ws[at + k] == e[k] by {
        assert(ws.subrange(at, at + e.len() as int)[k] == ws[at + k]);
    }
}

/// Encoded clauses parse back to themselves: the positional phrase of the
/// encoding of a clause-level operation is exactly that operation.
proof fn lemma_rt_pos(
    m: OpModel,
    es: Seq<(Seq<Syllable>, crate::grammar::EntryModel)>,
    tax: Ingredient,
    ws: Seq<AnnotatedWordModel>,
    at: int,
)
    requires
        gram_clause(m),
        spec_roles_coherent(es),
        crate::sandwich::spec_tree_wf(tax),
        spec_enc_at(m, es, tax, ws, at),
    ensures
        spec_parse_pos(ws, at, tax) == Some((m, at + spec_enc_len(m, es, tax))),
{
    let e = spec_encode(m, es, tax)->Some_0;
    lemma_enc_index(m, es, tax, ws, at);
    match m {
        OpModel::Add(n, rel) => {
            assert(spec_ingr_word(tax, n) is Some);
            lemma_ingr_word_shape(tax, n);
            lemma_ingr_word_facts(tax, n);
            lemma_def_word_shape(es, WordFunction::Desire);
            lemma_def_word_facts(es, WordFunction::Desire);
            let iw = spec_ingr_word(tax, n)->Some_0[0];
            let dw = spec_def_word(es, WordFunction::Desire)->Some_0[0];
            match rel {
                RelModel::Top => {
                    assert(e == spec_ingr_word(tax, n)->Some_0 + spec_def_word(
                        es,
                        WordFunction::Desire,
                    )->Some_0);
                    assert(e.len() == 2 && e[0] == iw && e[1] == dw);
                    assert(ws[at] == iw && ws[at + 1] == dw);
                    assert(spec_parse_ingredient(ws, at, tax) == Some((n, at + 1)));
                    assert(dw.role == Some(WordRole::Verb));
                    assert(!spec_has_role(ws, at + 1, WordRole::Preposition));
                    assert(spec_parse_adposition(ws, at, tax) is None);
                    assert(spec_parse_clause(ws, at, RelModel::Top, tax) == Some(
                        (OpModel::Add(n, RelModel::Top), at + 2),
                    ));
                },
                RelModel::Before(o) => {
                    assert(spec_ingr_word(tax, o) is Some);
                    lemma_ingr_word_shape(tax, o);
                    lemma_ingr_word_facts(tax, o);
                    lemma_def_word_shape(es, WordFunction::Before);
                    lemma_def_word_facts(es, WordFunction::Before);
                    lemma_find_def_member(es, WordFunction::Before);
                    let ow = spec_ingr_word(tax, o)->Some_0[0];
                    let pw = spec_def_word(es, WordFunction::Before)->Some_0[0];
                    assert(e == (spec_ingr_word(tax, o)->Some_0 + spec_def_word(
                        es,
                        WordFunction::Before,
                    )->Some_0) + (spec_ingr_word(tax, n)->Some_0 + spec_def_word(
                        es,
                        WordFunction::Desire,
                    )->Some_0));
                    assert(e.len() == 4 && e[0] == ow && e[1] == pw && e[2] == iw && e[3] == dw);
                    assert(ws[at] == ow && ws[at + 1] == pw && ws[at + 2] == iw && ws[at + 3]
                        == dw);
                    assert(spec_parse_ingredient(ws, at, tax) == Some((o, at + 1)));
                    assert(pw.role == Some(WordRole::Preposition));
                    assert(pw.entry->Some_0.function == WordFunction::Before);
                    assert(spec_parse_adposition(ws, at, tax) == Some(
                        (RelModel::Before(o), at + 2),
                    ));
                    assert(spec_parse_ingredient(ws, at + 2, tax) == Some((n, at + 3)));
                    assert(spec_parse_clause(ws, at + 2, RelModel::Before(o), tax) == Some(
                        (OpModel::Add(n, RelModel::Before(o)), at + 4),
                    ));
                },
                RelModel::After(o) => {
                    assert(spec_ingr_word(tax, o) is Some);
                    lemma_ingr_word_shape(tax, o);
                    lemma_ingr_word_facts(tax, o);
                    lemma_def_word_shape(es, WordFunction::After);
                    lemma_def_word_facts(es, WordFunction::After);
                    lemma_find_def_member(es, WordFunction::After);
                    let ow = spec_ingr_word(tax, o)->Some_0[0];
                    let pw = spec_def_word(es, WordFunction::After)->Some_0[0];
                    assert(e == (spec_ingr_word(tax, o)->Some_0 + spec_def_word(
                        es,
                        WordFunction::After,
                    )->Some_0) + (spec_ingr_word(tax, n)->Some_0 + spec_def_word(
                        es,
                        WordFunction::Desire,
                    )->Some_0));
                    assert(e.len() == 4 && e[0] == ow && e[1] == pw && e[2] == iw && e[3] == dw);
                    assert(ws[at] == ow && ws[at + 1] == pw && ws[at + 2] == iw && ws[at + 3]
                        == dw);
                    assert(spec_parse_ingredient(ws, at, tax) == Some((o, at + 1)));
                    assert(pw.role == Some(WordRole::Preposition));
                    assert(pw.entry->Some_0.function == WordFunction::After);
                    assert(spec_parse_adposition(ws, at, tax) == Some(
                        (RelModel::After(o), at + 2),
                    ));
                    assert(spec_parse_ingredient(ws, at + 2, tax) == Some((n, at + 3)));
                    assert(spec_parse_clause(ws, at + 2, RelModel::After(o), tax) == Some(
                        (OpModel::Add(n, RelModel::After(o)), at + 4),
                    ));
                },
            }
        },
        OpModel::Ensure(n) => {
            assert(spec_ingr_word(tax, n) is Some);
            lemma_ingr_word_shape(tax, n);
            lemma_ingr_word_facts(tax, n);
            lemma_def_word_shape(es, WordFunction::Have);
            lemma_def_word_facts(es, WordFunction::Have);
            let iw = spec_ingr_word(tax, n)->Some_0[0];
            let hw = spec_def_word(es, WordFunction::Have)->Some_0[0];
            assert(e == spec_ingr_word(tax, n)->Some_0 + spec_def_word(
                es,
                WordFunction::Have,
            )->Some_0);
            assert(e.len() == 2 && e[0] == iw && e[1] == hw);
            assert(ws[at] == iw && ws[at + 1] == hw);
            assert(spec_parse_ingredient(ws, at, tax) == Some((n, at + 1)));
            assert(hw.role == Some(WordRole::Verb));
            assert(!spec_has_role(ws, at + 1, WordRole::Preposition));
            assert(spec_parse_adposition(ws, at, tax) is None);
            assert(spec_parse_clause(ws, at, RelModel::Top, tax) == Some(
                (OpModel::Ensure(n), at + 2),
            ));
        },
        _ => {},
    }
}

/// Encoded adverb phrases parse back to themselves.
proof fn lemma_rt_adv(
    m: OpModel,
    es: Seq<(Seq<Syllable>, crate::grammar::EntryModel)>,
    tax: Ingredient,
    ws: Seq<AnnotatedWordModel>,
    at: int,
)
    requires
        gram_adv(m),
        spec_roles_coherent(es),
        crate::sandwich::spec_tree_wf(tax),
        spec_enc_at(m, es, tax, ws, at),
    ensures
        spec_parse_adv(ws, at, tax) == Some((m, at + spec_enc_len(m, es, tax))),
    decreases spec_enc_len(m, es, tax),
{
    let e = spec_encode(m, es, tax)->Some_0;
    lemma_enc_index(m, es, tax, ws, at);
    match m {
        OpModel::Remove(n) => {
            lemma_def_word_shape(es, WordFunction::Negation);
            lemma_def_word_facts(es, WordFunction::Negation);
            let nw = spec_def_word(es, WordFunction::Negation)->Some_0[0];
            let inner = OpModel::Add(n, RelModel::Top);
            assert(spec_encode(inner, es, tax) is Some);
            let ei = spec_encode(inner, es, tax)->Some_0;
            assert(e == spec_def_word(es, WordFunction::Negation)->Some_0 + ei);
            assert(e[0] == (spec_def_word(es, WordFunction::Negation)->Some_0 + ei)[0]);
            assert((spec_def_word(es, WordFunction::Negation)->Some_0 + ei)[0] == spec_def_word(
                es,
                WordFunction::Negation,
            )->Some_0[0]);
            assert(ws[at] == e[0]);
            assert(ws[at] == nw);
            assert(nw.role == Some(WordRole::Adverb));
            assert(ws.subrange(at + 1, at + 1 + ei.len() as int) =~~= ei) by {
                assert forall|k: int|
                    0 <= k < ei.len() implies ws.subrange(at + 1, at + 1 + ei.len() as int)[k]
                    == ei[k] by {
                    assert(ws[at + 1 + k] == e[1 + k]);
                }
            }
            lemma_rt_adv(inner, es, tax, ws, at + 1);
            assert(spec_definition(ws[at]) == Some(WordFunction::Negation));
            assert(crate::behavior::ops::spec_reverse(inner) == OpModel::Remove(n));
        },
        OpModel::Persist(x) => {
            lemma_def_word_shape(es, WordFunction::Ever);
            lemma_def_word_facts(es, WordFunction::Ever);
            let ew = spec_def_word(es, WordFunction::Ever)->Some_0[0];
            assert(spec_encode(*x, es, tax) is Some);
            let ei = spec_encode(*x, es, tax)->Some_0;
            assert(e == spec_def_word(es, WordFunction::Ever)->Some_0 + ei);
            assert(e[0] == (spec_def_word(es, WordFunction::Ever)->Some_0 + ei)[0]);
            assert((spec_def_word(es, WordFunction::Ever)->Some_0 + ei)[0] == spec_def_word(
                es,
                WordFunction::Ever,
            )->Some_0[0]);
            assert(ws[at] == e[0]);
            assert(ws[at] == ew);
            assert(ew.role == Some(WordRole::Adverb));
            assert(ws.subrange(at + 1, at + 1 + ei.len() as int) =~~= ei) by {
                assert forall|k: int|
                    0 <= k < ei.len() implies ws.subrange(at + 1, at + 1 + ei.len() as int)[k]
                    == ei[k] by {
                    assert(ws[at + 1 + k] == e[1 + k]);
                }
            }
            lemma_rt_adv(*x, es, tax, ws, at + 1);
            assert(spec_definition(ws[at]) == Some(WordFunction::Ever));
        },
        _ => {
            lemma_rt_pos(m, es, tax, ws, at);
            match m {
                OpModel::Add(n, rel) => {
                    let core = crate::behavior::ops::spec_opt_cat(
                        spec_ingr_word(tax, n),
                        spec_def_word(es, WordFunction::Desire),
                    );
                    match rel {
                        RelModel::Top => {
                            lemma_ingr_word_shape(tax, n);
                            assert(e == spec_ingr_word(tax, n)->Some_0 + spec_def_word(
                                es,
                                WordFunction::Desire,
                            )->Some_0);
                            assert(e[0] == spec_ingr_word(tax, n)->Some_0[0]);
                            assert(ws[at] == e[0]);
                            assert(!spec_has_role(ws, at, WordRole::Adverb));
                        },
                        RelModel::Before(o) => {
                            lemma_ingr_word_shape(tax, o);
                            assert(e == (spec_ingr_word(tax, o)->Some_0 + spec_def_word(
                                es,
                                WordFunction::Before,
                            )->Some_0) + core->Some_0);
                            assert(e[0] == spec_ingr_word(tax, o)->Some_0[0]);
                            assert(ws[at] == e[0]);
                            assert(!spec_has_role(ws, at, WordRole::Adverb));
                        },
                        RelModel::After(o) => {
                            lemma_ingr_word_shape(tax, o);
                            assert(e == (spec_ingr_word(tax, o)->Some_0 + spec_def_word(
                                es,
                                WordFunction::After,
                            )->Some_0) + core->Some_0);
                            assert(e[0] == spec_ingr_word(tax, o)->Some_0[0]);
                            assert(ws[at] == e[0]);
                            assert(!spec_has_role(ws, at, WordRole::Adverb));
                        },
                    }
                },
                OpModel::Ensure(n) => {
                    lemma_ingr_word_shape(tax, n);
                    assert(e == spec_ingr_word(tax, n)->Some_0 + spec_def_word(
                        es,
                        WordFunction::Have,
                    )->Some_0);
                    assert(e[0] == spec_ingr_word(tax, n)->Some_0[0]);
                    assert(ws[at] == e[0]);
                    assert(!spec_has_role(ws, at, WordRole::Adverb));
                },
                _ => {},
            }
        },
    }
}

/// Encoded numbered phrases parse back to themselves.
proof fn lemma_rt_numbered(
    m: OpModel,
    es: Seq<(Seq<Syllable>, crate::grammar::EntryModel)>,
    tax: Ingredient,
    ws: Seq<AnnotatedWordModel>,
    at: int,
)
    requires
        gram_numbered(m),
        spec_roles_coherent(es),
        crate::sandwich::spec_tree_wf(tax),
        spec_enc_at(m, es, tax, ws, at),
    ensures
        spec_parse_numbered(ws, at, tax) == Some((m, at + spec_enc_len(m, es, tax))),
    decreases spec_enc_len(m, es, tax),
{
    let e = spec_encode(m, es, tax)->Some_0;
    lemma_enc_index(m, es, tax, ws, at);
    match m {
        OpModel::Repeat(n, x) => {
            lemma_num_word_shape(es, n as u32);
            let numw = spec_num_word(es, n as u32)->Some_0[0];
            assert(spec_encode(*x, es, tax) is Some);
            let ei = spec_encode(*x, es, tax)->Some_0;
            assert(e == spec_num_word(es, n as u32)->Some_0 + ei);
            assert(e[0] == (spec_num_word(es, n as u32)->Some_0 + ei)[0]);
            assert((spec_num_word(es, n as u32)->Some_0 + ei)[0] == spec_num_word(
                es,
                n as u32,
            )->Some_0[0]);
            assert(ws[at] == e[0]);
            assert(ws[at] == numw);
            assert(spec_has_def(ws, at, WordFunction::Number));
            assert(spec_number(ws[at].entry->Some_0.definition) == Some(n as u32));
            assert(ws.subrange(at + 1, at + 1 + ei.len() as int) =~~= ei) by {
                assert forall|k: int|
                    0 <= k < ei.len() implies ws.subrange(at + 1, at + 1 + ei.len() as int)[k]
                    == ei[k] by {
                    assert(ws[at + 1 + k] == e[1 + k]);
                }
            }
            lemma_rt_numbered(*x, es, tax, ws, at + 1);
            assert(n as u32 as int == n);
        },
        _ => {
            lemma_first_word(m, es, tax);
            assert(ws[at] == e[0]);
            assert(spec_first_fun(m) != WordFunction::Number);
            assert(!spec_has_def(ws, at, WordFunction::Number));
            lemma_rt_adv(m, es, tax, ws, at);
        },
    }
}

/// Encoded conjoined phrases parse back to themselves, when the encoding
/// runs to the end of the phrase.
proof fn lemma_rt_conjunct(
    m: OpModel,
    es: Seq<(Seq<Syllable>, crate::grammar::EntryModel)>,
    tax: Ingredient,
    ws: Seq<AnnotatedWordModel>,
    at: int,
)
    requires
        gram_conjunct(m),
        spec_roles_coherent(es),
        crate::sandwich::spec_tree_wf(tax),
        spec_enc_at(m, es, tax, ws, at),
        at + spec_enc_len(m, es, tax) == ws.len(),
    ensures
        spec_parse_conjunct(ws, at, tax) == Some((m, ws.len() as int)),
    decreases spec_enc_len(m, es, tax),
{
    let e = spec_encode(m, es, tax)->Some_0;
    lemma_enc_index(m, es, tax, ws, at);
    match m {
        OpModel::Compound(a, b) => {
            assert(spec_encode(*a, es, tax) is Some);
            assert(spec_encode(*b, es, tax) is Some);
            lemma_def_word_shape(es, WordFunction::And);
            let ea = spec_encode(*a, es, tax)->Some_0;
            let eb = spec_encode(*b, es, tax)->Some_0;
            let andw = spec_def_word(es, WordFunction::And)->Some_0[0];
            assert(e == ea + (spec_def_word(es, WordFunction::And)->Some_0 + eb));
            assert(ws.subrange(at, at + ea.len() as int) =~~= ea) by {
                assert forall|k: int|
                    0 <= k < ea.len() implies ws.subrange(at, at + ea.len() as int)[k] == ea[k] by {
                    assert(ws[at + k] == e[k]);
                }
            }
            lemma_rt_numbered(*a, es, tax, ws, at);
            let i = at + ea.len() as int;
            assert(ws[i] == e[ea.len() as int]);
            assert(e[ea.len() as int] == andw);
            assert(spec_has_def(ws, i, WordFunction::And));
            assert(ws.subrange(i + 1, i + 1 + eb.len() as int) =~~= eb) by {
                assert forall|k: int|
                    0 <= k < eb.len() implies ws.subrange(i + 1, i + 1 + eb.len() as int)[k]
                    == eb[k] by {
                    assert(ws[i + 1 + k] == e[ea.len() + 1 + k]);
                }
            }
            lemma_rt_conjunct(*b, es, tax, ws, i + 1);
        },
        _ => {
            lemma_rt_numbered(m, es, tax, ws, at);
            assert(!spec_has_def(ws, ws.len() as int, WordFunction::And));
        },
    }
}

/// The first category of a conjoinable encoding is always one of the four
/// phrase openers.
proof fn lemma_first_fun_range(m: OpModel)
    requires
        gram_conjunct(m),
    ensures
        spec_first_fun(m) == WordFunction::Ingredient || spec_first_fun(m)
            == WordFunction::Negation || spec_first_fun(m) == WordFunction::Ever || spec_first_fun(
            m,
        ) == WordFunction::Number,
    decreases m,
{
    match m {
        OpModel::Compound(a, _) => {
            lemma_first_fun_range(*a);
        },
        _ => {},
    }
}

/// The round trip: any operation the grammar can produce, once encoded
/// through a lexicon whose entries carry the roles their categories dictate
/// and a well-formed taxonomy, parses back under full comprehension to the
/// very same operation — so in particular to one with the identical apply
/// effect on any sandwich.
pub proof fn lemma_encode_parse_roundtrip(
    m: OpModel,
    es: Seq<(Seq<Syllable>, crate::grammar::EntryModel)>,
    tax: Ingredient,
)
    requires
        spec_grammatical(m),
        spec_roles_coherent(es),
        crate::sandwich::spec_tree_wf(tax),
        spec_encode(m, es, tax) is Some,
    ensures
        spec_parse_sentence(spec_encode(m, es, tax)->Some_0, tax) == Some(m),
{
    let e = spec_encode(m, es, tax)->Some_0;
    match m {
        OpModel::Finish => {
            lemma_def_word_shape(es, WordFunction::Greeting);
            assert(e[0] == spec_def_word(es, WordFunction::Greeting)->Some_0[0]);
            assert(spec_has_def(e, 0, WordFunction::Greeting));
        },
        OpModel::Affirm => {
            lemma_def_word_shape(es, WordFunction::Affirmation);
            assert(e[0] == spec_def_word(es, WordFunction::Affirmation)->Some_0[0]);
            assert(!spec_has_def(e, 0, WordFunction::Greeting));
            assert(spec_has_def(e, 0, WordFunction::Affirmation));
        },
        _ => {
            lemma_first_word(m, es, tax);
            lemma_first_fun_range(m);
            assert(!spec_has_def(e, 0, WordFunction::Greeting));
            assert(!spec_has_def(e, 0, WordFunction::Affirmation));
            assert(e.subrange(0, e.len() as int) =~~= e);
            lemma_rt_conjunct(m, es, tax, e, 0);
        },
    }
}

/// Whether every stored surface word is a well-formed word.
pub open spec fn spec_keys_wf(es: Seq<(Seq<Syllable>, crate::grammar::EntryModel)>) -> bool {
    forall|k: int| 0 <= k < es.len() ==> crate::grammar::word_wf((#[trigger] es[k]).0)
}

/// A word whose reading is its own stored lexicon entry: annotating it
/// again gives back the same reading.
pub open spec fn spec_word_grounded(
    es: Seq<(Seq<Syllable>, crate::grammar::EntryModel)>,
    aw: AnnotatedWordModel,
) -> bool {
    &&& aw.entry is Some
    &&& crate::grammar::spec_lookup(es, aw.word) == Some(aw.entry->Some_0)
    &&& aw.role == Some(aw.entry->Some_0.role)
}

/// Annotating a grounded word reproduces it.
proof fn lemma_annotated_of_grounded(
    es: Seq<(Seq<Syllable>, crate::grammar::EntryModel)>,
    aw: AnnotatedWordModel,
)
    requires
        spec_word_grounded(es, aw),
    ensures
        crate::grammar::spec_annotated(es, aw.word) == aw,
{
    assert(crate::grammar::spec_annotated(es, aw.word) =~~= aw);
}

/// Every word of the list is grounded and well formed.
pub open spec fn spec_all_grounded_wf(
    es: Seq<(Seq<Syllable>, crate::grammar::EntryModel)>,
    s: Seq<AnnotatedWordModel>,
) -> bool {
    forall|k: int|
        0 <= k < s.len() ==> spec_word_grounded(es, #[trigger] s[k]) && crate::grammar::word_wf(
            s[k].word,
        )
}

/// Groundedness joins over concatenation.
proof fn lemma_grounded_concat(
    es: Seq<(Seq<Syllable>, crate::grammar::EntryModel)>,
    a: Seq<AnnotatedWordModel>,
    b: Seq<AnnotatedWordModel>,
)
    requires
        spec_all_grounded_wf(es, a),
        spec_all_grounded_wf(es, b),
    ensures
        spec_all_grounded_wf(es, a + b),
{
    assert forall|k: int|
        0 <= k < (a + b).len() implies spec_word_grounded(es, #[trigger] (a + b)[k])
        && crate::grammar::word_wf((a + b)[k].word) by {
        if k < a.len() {
            assert((a + b)[k] == a[k]);
        } else {
            assert((a + b)[k] == b[k - a.len()]);
        }
    }
}

/// The word encoding a category is grounded and well formed.
proof fn lemma_def_word_grounded(
    es: Seq<(Seq<Syllable>, crate::grammar::EntryModel)>,
    f: WordFunction,
)
    requires
        spec_keys_distinct(es),
        spec_keys_wf(es),
        spec_def_word(es, f) is Some,
    ensures
        spec_all_grounded_wf(es, spec_def_word(es, f)->Some_0),
{
    lemma_find_def_member(es, f);
    let p = crate::grammar::spec_find_def(es, f)->Some_0;
    let k: int = choose|k: int| 0 <= k < es.len() && #[trigger] es[k] == p;
    lemma_lookup_member(es, k);
    let aw = AnnotatedWordModel { word: p.0, role: Some(p.1.role), entry: Some(p.1) };
    assert(spec_def_word(es, f) == Some(seq![aw]));
    assert(seq![aw][0] == aw);
}

/// The word encoding a number is grounded and well formed.
proof fn lemma_num_word_grounded(es: Seq<(Seq<Syllable>, crate::grammar::EntryModel)>, n: u32)
    requires
        spec_keys_distinct(es),
        spec_keys_wf(es),
        spec_num_word(es, n) is Some,
    ensures
        spec_all_grounded_wf(es, spec_num_word(es, n)->Some_0),
{
    lemma_find_num_member(es, n);
    let p = crate::grammar::spec_find_num(es, n)->Some_0;
    let k: int = choose|k: int| 0 <= k < es.len() && #[trigger] es[k] == p;
    lemma_lookup_member(es, k);
    let aw = AnnotatedWordModel { word: p.0, role: Some(p.1.role), entry: Some(p.1) };
    assert(spec_num_word(es, n) == Some(seq![aw]));
    assert(seq![aw][0] == aw);
}

/// Whether the lexicon stores, for the given ingredient name, exactly the
/// taxonomy's word under the synthesized noun entry.
pub open spec fn spec_name_covered(
    es: Seq<(Seq<Syllable>, crate::grammar::EntryModel)>,
    tax: Ingredient,
    n: Seq<char>,
) -> bool {
    exists|k: int|
        0 <= k < es.len() && #[trigger] es[k] == (
            crate::sandwich::spec_word_for(tax, n)->Some_0,
            crate::grammar::EntryModel {
                function: WordFunction::Ingredient,
                role: WordRole::Noun,
                definition: n,
            },
        )
}

/// The word naming a covered ingredient is grounded and well formed.
proof fn lemma_ingr_word_grounded(
    es: Seq<(Seq<Syllable>, crate::grammar::EntryModel)>,
    tax: Ingredient,
    n: Seq<char>,
)
    requires
        spec_keys_distinct(es),
        crate::sandwich::spec_morphemes_wf(tax),
        spec_name_covered(es, tax, n),
        spec_ingr_word(tax, n) is Some,
    ensures
        spec_all_grounded_wf(es, spec_ingr_word(tax, n)->Some_0),
{
    let e = crate::grammar::EntryModel {
        function: WordFunction::Ingredient,
        role: WordRole::Noun,
        definition: n,
    };
    let w = crate::sandwich::spec_word_for(tax, n)->Some_0;
    let k: int = choose|k: int| 0 <= k < es.len() && #[trigger] es[k] == (w, e);
    lemma_lookup_member(es, k);
    crate::sandwich::lemma_word_for_wf(tax, n);
    let aw = AnnotatedWordModel { word: w, role: Some(WordRole::Noun), entry: Some(e) };
    assert(spec_ingr_word(tax, n) == Some(seq![aw]));
    assert(seq![aw][0] == aw);
}

/// The ingredient names an operation mentions.
pub open spec fn spec_op_ingredients(m: OpModel) -> Seq<Seq<char>>
    decreases m,
{
    match m {
        OpModel::Add(n, rel) => seq![n] + (match rel {
            RelModel::Before(o) => seq![o],
            RelModel::After(o) => seq![o],
            RelModel::Top => Seq::empty(),
        }),
        OpModel::Remove(n) => seq![n],
        OpModel::RemoveAll(n) => seq![n],
        OpModel::Ensure(n) => seq![n],
        OpModel::CheckFor(n) => seq![n],
        OpModel::Repeat(_, x) => spec_op_ingredients(*x),
        OpModel::Persist(x) => spec_op_ingredients(*x),
        OpModel::Compound(a, b) => spec_op_ingredients(*a) + spec_op_ingredients(*b),
        _ => Seq::empty(),
    }
}

/// Whether the lexicon covers every ingredient name of the operation.
pub open spec fn spec_covers(
    es: Seq<(Seq<Syllable>, crate::grammar::EntryModel)>,
    tax: Ingredient,
    m: OpModel,
) -> bool {
    forall|j: int|
        0 <= j < spec_op_ingredients(m).len() ==> spec_name_covered(
            es,
            tax,
            #[trigger] spec_op_ingredients(m)[j],
        )
}

/// Adverb-level shapes are conjoinable.
proof fn lemma_adv_is_conjunct(m: OpModel)
    requires
        gram_adv(m),
    ensures
        gram_conjunct(m),
{
    match m {
        OpModel::Compound(_, _) => {},
        OpModel::Repeat(_, _) => {},
        _ => {},
    }
}

/// Numbered-level shapes are conjoinable.
proof fn lemma_numbered_is_conjunct(m: OpModel)
    requires
        gram_numbered(m),
    ensures
        gram_conjunct(m),
{
    match m {
        OpModel::Compound(_, _) => {},
        _ => {},
    }
}

/// Every word of a conjoinable encoding is grounded and well formed.
proof fn lemma_encoding_grounded(
    m: OpModel,
    es: Seq<(Seq<Syllable>, crate::grammar::EntryModel)>,
    tax: Ingredient,
)
    requires
        gram_conjunct(m),
        spec_keys_distinct(es),
        spec_keys_wf(es),
        crate::sandwich::spec_morphemes_wf(tax),
        spec_covers(es, tax, m),
        spec_encode(m, es, tax) is Some,
    ensures
        spec_all_grounded_wf(es, spec_encode(m, es, tax)->Some_0),
    decreases m,
{
    let e = spec_encode(m, es, tax)->Some_0;
    match m {
        OpModel::Add(n, rel) => {
            assert(spec_op_ingredients(m)[0] == n);
            lemma_ingr_word_grounded(es, tax, n);
            lemma_def_word_grounded(es, WordFunction::Desire);
            let core = spec_ingr_word(tax, n)->Some_0 + spec_def_word(
                es,
                WordFunction::Desire,
            )->Some_0;
            lemma_grounded_concat(
                es,
                spec_ingr_word(tax, n)->Some_0,
                spec_def_word(es, WordFunction::Desire)->Some_0,
            );
            match rel {
                RelModel::Top => {
                    assert(e == core);
                },
                RelModel::Before(o) => {
                    assert(spec_op_ingredients(m)[1] == o);
                    lemma_ingr_word_grounded(es, tax, o);
                    lemma_def_word_grounded(es, WordFunction::Before);
                    lemma_grounded_concat(
                        es,
                        spec_ingr_word(tax, o)->Some_0,
                        spec_def_word(es, WordFunction::Before)->Some_0,
                    );
                    lemma_grounded_concat(
                        es,
                        spec_ingr_word(tax, o)->Some_0 + spec_def_word(
                            es,
                            WordFunction::Before,
                        )->Some_0,
                        core,
                    );
                    assert(e == (spec_ingr_word(tax, o)->Some_0 + spec_def_word(
                        es,
                        WordFunction::Before,
                    )->Some_0) + core);
                },
                RelModel::After(o) => {
                    assert(spec_op_ingredients(m)[1] == o);
                    lemma_ingr_word_grounded(es, tax, o);
                    lemma_def_word_grounded(es, WordFunction::After);
                    lemma_grounded_concat(
                        es,
                        spec_ingr_word(tax, o)->Some_0,
                        spec_def_word(es, WordFunction::After)->Some_0,
                    );
                    lemma_grounded_concat(
                        es,
                        spec_ingr_word(tax, o)->Some_0 + spec_def_word(
                            es,
                            WordFunction::After,
                        )->Some_0,
                        core,
                    );
                    assert(e == (spec_ingr_word(tax, o)->Some_0 + spec_def_word(
                        es,
                        WordFunction::After,
                    )->Some_0) + core);
                },
            }
        },
        OpModel::Ensure(n) => {
            assert(spec_op_ingredients(m)[0] == n);
            lemma_ingr_word_grounded(es, tax, n);
            lemma_def_word_grounded(es, WordFunction::Have);
            lemma_grounded_concat(
                es,
                spec_ingr_word(tax, n)->Some_0,
                spec_def_word(es, WordFunction::Have)->Some_0,
            );
            assert(e == spec_ingr_word(tax, n)->Some_0 + spec_def_word(
                es,
                WordFunction::Have,
            )->Some_0);
        },
        OpModel::Remove(n) => {
            assert(spec_op_ingredients(m)[0] == n);
            lemma_ingr_word_grounded(es, tax, n);
            lemma_def_word_grounded(es, WordFunction::Negation);
            lemma_def_word_grounded(es, WordFunction::Desire);
            lemma_grounded_concat(
                es,
                spec_ingr_word(tax, n)->Some_0,
                spec_def_word(es, WordFunction::Desire)->Some_0,
            );
            lemma_grounded_concat(
                es,
                spec_def_word(es, WordFunction::Negation)->Some_0,
                spec_ingr_word(tax, n)->Some_0 + spec_def_word(
                    es,
                    WordFunction::Desire,
                )->Some_0,
            );
            assert(e == spec_def_word(es, WordFunction::Negation)->Some_0 + (spec_ingr_word(
                tax,
                n,
            )->Some_0 + spec_def_word(es, WordFunction::Desire)->Some_0));
        },
        OpModel::Persist(x) => {
            lemma_adv_is_conjunct(*x);
            assert(spec_covers(es, tax, *x)) by {
                assert(forall|j: int|
                    0 <= j < spec_op_ingredients(*x).len() ==> spec_op_ingredients(m)[j]
                        == #[trigger] spec_op_ingredients(*x)[j]);
            }
            lemma_encoding_grounded(*x, es, tax);
            lemma_def_word_grounded(es, WordFunction::Ever);
            lemma_grounded_concat(
                es,
                spec_def_word(es, WordFunction::Ever)->Some_0,
                spec_encode(*x, es, tax)->Some_0,
            );
            assert(e == spec_def_word(es, WordFunction::Ever)->Some_0 + spec_encode(
                *x,
                es,
                tax,
            )->Some_0);
        },
        OpModel::Repeat(n, x) => {
            lemma_numbered_is_conjunct(*x);
            assert(spec_covers(es, tax, *x)) by {
                assert(forall|j: int|
                    0 <= j < spec_op_ingredients(*x).len() ==> spec_op_ingredients(m)[j]
                        == #[trigger] spec_op_ingredients(*x)[j]);
            }
            lemma_encoding_grounded(*x, es, tax);
            lemma_num_word_grounded(es, n as u32);
            lemma_grounded_concat(
                es,
                spec_num_word(es, n as u32)->Some_0,
                spec_encode(*x, es, tax)->Some_0,
            );
            assert(e == spec_num_word(es, n as u32)->Some_0 + spec_encode(*x, es, tax)->Some_0);
        },
        OpModel::Compound(a, b) => {
            let na = spec_op_ingredients(*a);
            let nb = spec_op_ingredients(*b);
            assert(spec_covers(es, tax, *a)) by {
                assert(forall|j: int|
                    0 <= j < na.len() ==> spec_op_ingredients(m)[j] == #[trigger] na[j]);
            }
            assert(spec_covers(es, tax, *b)) by {
                assert(forall|j: int|
                    0 <= j < nb.len() ==> spec_op_ingredients(m)[na.len() + j] == #[trigger] nb[j]);
            }
            lemma_encoding_grounded(*a, es, tax);
            lemma_encoding_grounded(*b, es, tax);
            lemma_def_word_grounded(es, WordFunction::And);
            lemma_grounded_concat(
                es,
                spec_def_word(es, WordFunction::And)->Some_0,
                spec_encode(*b, es, tax)->Some_0,
            );
            lemma_grounded_concat(
                es,
                spec_encode(*a, es, tax)->Some_0,
                spec_def_word(es, WordFunction::And)->Some_0 + spec_encode(*b, es, tax)->Some_0,
            );
            assert(e == spec_encode(*a, es, tax)->Some_0 + (spec_def_word(
                es,
                WordFunction::And,
            )->Some_0 + spec_encode(*b, es, tax)->Some_0));
        },
        _ => {},
    }
}

/// The surface words of an annotated phrase.
pub open spec fn spec_words_of(ph: Seq<AnnotatedWordModel>) -> Seq<Seq<Syllable>> {
    ph.map_values(|aw: AnnotatedWordModel| aw.word)
}

/// The round trip through raw text: a grammatical operation, encoded over
/// a coherent lexicon with distinct, well-formed words that covers its
/// ingredient names, renders to letters that tokenize back to the same
/// words, re-annotate to the same readings, and parse under full
/// comprehension to the very same operation.
pub proof fn lemma_text_roundtrip(
    m: OpModel,
    es: Seq<(Seq<Syllable>, crate::grammar::EntryModel)>,
    tax: Ingredient,
)
    requires
        spec_grammatical(m),
        spec_roles_coherent(es),
        spec_keys_distinct(es),
        spec_keys_wf(es),
        crate::sandwich::spec_tree_wf(tax),
        crate::sandwich::spec_morphemes_wf(tax),
        spec_covers(es, tax, m),
        spec_encode(m, es, tax) is Some,
    ensures
        crate::grammar::spec_phrase_parse(
            crate::grammar::spec_phrase_chars(spec_words_of(spec_encode(m, es, tax)->Some_0)),
        ) == Some(spec_words_of(spec_encode(m, es, tax)->Some_0)),
        spec_parse_sentence(
            spec_annotated_all(es, spec_words_of(spec_encode(m, es, tax)->Some_0)),
            tax,
        ) == Some(m),
{
    let ph = spec_encode(m, es, tax)->Some_0;
    let tokens = spec_words_of(ph);
    assert(spec_all_grounded_wf(es, ph)) by {
        match m {
            OpModel::Finish => {
                lemma_def_word_grounded(es, WordFunction::Greeting);
            },
            OpModel::Affirm => {
                lemma_def_word_grounded(es, WordFunction::Affirmation);
            },
            _ => {
                lemma_encoding_grounded(m, es, tax);
            },
        }
    }
    assert(ph.len() > 0) by {
        match m {
            OpModel::Finish => {
                lemma_def_word_shape(es, WordFunction::Greeting);
            },
            OpModel::Affirm => {
                lemma_def_word_shape(es, WordFunction::Affirmation);
            },
            _ => {
                lemma_first_word(m, es, tax);
            },
        }
    }
    assert(tokens.len() == ph.len());
    assert(forall|k: int|
        0 <= k < tokens.len() ==> crate::grammar::word_wf(#[trigger] tokens[k])) by {
        assert(forall|k: int| 0 <= k < ph.len() ==> #[trigger] tokens[k] == ph[k].word);
    }
    crate::grammar::lemma_phrase_parse_of_render(tokens);
    assert(spec_annotated_all(es, tokens) =~~= ph) by {
        assert forall|k: int|
            0 <= k < spec_annotated_all(es, tokens).len() implies #[trigger] spec_annotated_all(
            es,
            tokens,
        )[k] == ph[k] by {
            assert(tokens[k] == ph[k].word);
            lemma_annotated_of_grounded(es, ph[k]);
            assert(spec_annotated_all(es, tokens)[k] == crate::grammar::spec_annotated(
                es,
                tokens[k],
            ));
        }
    }
    lemma_encode_parse_roundtrip(m, es, tax);
}

/// The negation scenario at its stated generality: the encoding of a
/// removal — negation word, ingredient word, desire word — admits only the
/// removal itself as a parse outcome for any agent whose adverb skill
/// stands at full weight, whatever its other three skills. Together with
/// the sentence parser's outcome clause, this pins the operation such an
/// agent recovers from the rendered phrase.
pub proof fn lemma_negation_comprehended(
    n: Seq<char>,
    es: Seq<(Seq<Syllable>, crate::grammar::EntryModel)>,
    tax: Ingredient,
    lang: Personality,
    m: OpModel,
)
    requires
        spec_roles_coherent(es),
        crate::sandwich::spec_tree_wf(tax),
        spec_encode(OpModel::Remove(n), es, tax) is Some,
        lang.adverbs == SCALE,
        spec_outcome_sentence(spec_encode(OpModel::Remove(n), es, tax)->Some_0, tax, lang, m),
    ensures
        m == OpModel::Remove(n),
{
    let ws = spec_encode(OpModel::Remove(n), es, tax)->Some_0;
    lemma_def_word_shape(es, WordFunction::Negation);
    lemma_def_word_facts(es, WordFunction::Negation);
    let nw = spec_def_word(es, WordFunction::Negation)->Some_0[0];
    let inner = OpModel::Add(n, RelModel::Top);
    assert(spec_encode(inner, es, tax) is Some);
    let ei = spec_encode(inner, es, tax)->Some_0;
    assert(ws == spec_def_word(es, WordFunction::Negation)->Some_0 + ei);
    assert(ws[0] == (spec_def_word(es, WordFunction::Negation)->Some_0 + ei)[0]);
    assert((spec_def_word(es, WordFunction::Negation)->Some_0 + ei)[0] == nw);
    assert(ws.subrange(0, ws.len() as int) =~~= ws);
    assert(spec_enc_at(OpModel::Remove(n), es, tax, ws, 0));
    lemma_rt_numbered(OpModel::Remove(n), es, tax, ws, 0);
    assert(ws.subrange(1, 1 + ei.len() as int) =~~= ei) by {
        assert forall|k: int|
            0 <= k < ei.len() implies ws.subrange(1, 1 + ei.len() as int)[k] == ei[k] by {
            assert(ws.subrange(1, 1 + ei.len() as int)[k] == ws[1 + k]);
            assert(ws[1 + k] == (spec_def_word(es, WordFunction::Negation)->Some_0 + ei)[1 + k]);
        }
    }
    assert(spec_enc_at(inner, es, tax, ws, 1));
    lemma_rt_adv(inner, es, tax, ws, 1);
    lemma_rt_pos(inner, es, tax, ws, 1);
    assert(spec_definition(ws[0]) == Some(WordFunction::Negation));
    assert(!spec_has_def(ws, 0, WordFunction::Greeting));
    assert(!spec_has_def(ws, 0, WordFunction::Affirmation));
    assert(spec_outcome_conjunct(ws, 0, tax, lang, m));
    assert(spec_parse_numbered(ws, 0, tax) == Some((OpModel::Remove(n), ws.len() as int)));
    assert(!spec_has_def(ws, ws.len() as int, WordFunction::And));
    assert(spec_outcome_numbered(ws, 0, tax, lang, m));
    assert(!spec_has_def(ws, 0, WordFunction::Number));
    assert(spec_outcome_adv(ws, 0, tax, lang, m));
    assert(nw.role == Some(WordRole::Adverb));
    assert(spec_has_role(ws, 0, WordRole::Adverb));
    assert(spec_parse_adv(ws, 1, tax) == Some((inner, 1 + spec_enc_len(inner, es, tax))));
    let x = choose|x: OpModel|
        spec_outcome_adv(ws, 1, tax, lang, x) && m == crate::behavior::ops::spec_reverse(x);
    lemma_ingr_word_shape(tax, n);
    assert(ei == spec_ingr_word(tax, n)->Some_0 + spec_def_word(
        es,
        WordFunction::Desire,
    )->Some_0);
    assert(ei[0] == spec_ingr_word(tax, n)->Some_0[0]);
    assert(ws[1] == ei[0]);
    assert(!spec_has_role(ws, 1, WordRole::Adverb));
    assert(spec_outcome_pos(ws, 1, tax, lang, x));
    assert(spec_parse_pos(ws, 1, tax) == Some((inner, 1 + spec_enc_len(inner, es, tax))));
    assert(spec_untethered(inner) == inner);
    assert(x == inner);
    assert(m == crate::behavior::ops::spec_reverse(inner));
}

} // verus!