//! End-to-end checks of the language and negotiation engine on a small
//! hand-built lexicon and taxonomy.

use sandwich::behavior::ops::{
    frame_content_len, Message, Operation, Order, Relative, MESSAGE_MAX_SIZE,
};
use sandwich::behavior::personality::{Personality, Preference};
use sandwich::behavior::{Event, Severity};
use sandwich::grammar::{
    chars_of, parse_number, phrase, Dictionary, DictionaryEntry, Syllable, Word, WordFunction,
    WordRole,
};
use sandwich::parser::{prob_sentence_new, sentence_new};
use sandwich::random::Entropy;
use sandwich::sandwich::{Ingredient, Sandwich};
use sandwich::state::OrderingSandwich;

fn sy(a: char, b: char) -> Syllable {
    Syllable { first: a, second: b }
}

fn word(text: &str) -> Word {
    let cs: Vec<char> = text.chars().collect();
    let mut syllables = Vec::new();
    let mut i = 0;
    while i + 1 < cs.len() {
        syllables.push(sy(cs[i], cs[i + 1]));
        i += 2;
    }
    Word { syllables }
}

fn leaf(name: &str, m: &str) -> Ingredient {
    let cs: Vec<char> = m.chars().collect();
    Ingredient { name: name.to_string(), morpheme: sy(cs[0], cs[1]), children: None }
}

fn node(name: &str, m: &str, children: Vec<Ingredient>) -> Ingredient {
    let cs: Vec<char> = m.chars().collect();
    Ingredient { name: name.to_string(), morpheme: sy(cs[0], cs[1]), children: Some(children) }
}

/// The taxonomy most tests share: a base category with one bread pair, and
/// three loose fillings.
fn taxonomy() -> Ingredient {
    node(
        "food",
        "pa",
        vec![
            node(
                "base",
                "ku",
                vec![node("white", "mi", vec![leaf("bread-bottom", "to"), leaf("bread-top", "ti")])],
            ),
            leaf("cheese", "ka"),
            leaf("lettuce", "le"),
            leaf("avocado", "wo"),
        ],
    )
}

fn entry(f: WordFunction, r: WordRole, gloss: &str) -> DictionaryEntry {
    DictionaryEntry { function: f, role: r, definition: gloss.to_string() }
}

fn word_list() -> Vec<(Word, DictionaryEntry)> {
    vec![
        (word("nu"), entry(WordFunction::Desire, WordRole::Verb, "want")),
        (word("ha"), entry(WordFunction::Have, WordRole::Verb, "have")),
        (word("no"), entry(WordFunction::Negation, WordRole::Adverb, "not")),
        (word("se"), entry(WordFunction::Ever, WordRole::Adverb, "ever")),
        (word("wi"), entry(WordFunction::And, WordRole::NounConjunction, "and")),
        (word("ko"), entry(WordFunction::Greeting, WordRole::Special, "hello")),
        (word("si"), entry(WordFunction::Affirmation, WordRole::Special, "yes")),
        (word("ke"), entry(WordFunction::Question, WordRole::Special, "question")),
        (word("pe"), entry(WordFunction::Before, WordRole::Preposition, "before")),
        (word("po"), entry(WordFunction::After, WordRole::Preposition, "after")),
        (word("tu"), entry(WordFunction::Number, WordRole::Adjective, "2")),
        (word("ho"), entry(WordFunction::Number, WordRole::Adjective, "3")),
    ]
}

fn dictionary() -> Dictionary {
    Dictionary::new(word_list(), taxonomy())
}

fn personality() -> Personality {
    let mut rng = Entropy::system();
    let mut p = Personality::new(dictionary(), &mut rng);
    // Keep the fixtures deterministic: no tastes, no urges.
    p.allergies = Vec::new();
    p.preferences = Vec::new();
    p.shyness = 0;
    p.forgetfulness = 0;
    p.spontaneity = 0;
    p
}

fn names(s: &Sandwich) -> Vec<String> {
    s.ingredients.iter().map(|i| i.name.clone()).collect()
}

fn sandwich_of(names: &[&str]) -> Sandwich {
    let tax = taxonomy();
    let mut picked = Vec::new();
    for n in names {
        picked.push(tax.from_def(n).expect("fixture name").clone());
    }
    Sandwich::new(picked)
}

fn ingr(name: &str) -> Ingredient {
    taxonomy().from_def(name).expect("fixture name").clone()
}

fn render_phrase(words: &Vec<sandwich::grammar::AnnotatedWord>) -> Vec<char> {
    let mut out = Vec::new();
    for (i, aw) in words.iter().enumerate() {
        if i > 0 {
            out.push(' ');
        }
        out.extend(aw.word.text());
    }
    out
}

#[test]
fn tokenizer_splits_syllable_words() {
    let ws = phrase(&chars_of("paka nu")).expect("phrase should tokenize");
    assert_eq!(ws.len(), 2);
    assert_eq!(ws[0].syllables, vec![sy('p', 'a'), sy('k', 'a')]);
    assert_eq!(ws[1].syllables, vec![sy('n', 'u')]);
}

#[test]
fn tokenizer_accepts_trailing_newline_and_mixed_syllables() {
    let ws = phrase(&chars_of("apto\n")).expect("vc-cv word should tokenize");
    assert_eq!(ws.len(), 1);
    assert_eq!(ws[0].syllables, vec![sy('a', 'p'), sy('t', 'o')]);
}

#[test]
fn tokenizer_rejects_undecomposable_tokens() {
    assert!(phrase(&chars_of("kat a")).is_none());
    assert!(phrase(&chars_of("ka  ta")).is_none());
    assert!(phrase(&chars_of("")).is_none());
}

#[test]
fn numbers_parse_within_range() {
    assert_eq!(parse_number(&chars_of("42")), Some(42));
    assert_eq!(parse_number(&chars_of("0")), Some(0));
    assert_eq!(parse_number(&chars_of("4294967295")), Some(u32::MAX));
    assert_eq!(parse_number(&chars_of("4294967296")), None);
    assert_eq!(parse_number(&chars_of("")), None);
    assert_eq!(parse_number(&chars_of("4x")), None);
}

#[test]
fn dictionary_lookup_and_selection_are_deterministic() {
    let d = dictionary();
    let e = d.get(&word("nu")).expect("desire word is stored");
    assert!(matches!(e.function, WordFunction::Desire));
    let (w, _) = d.word_for_def(WordFunction::Negation).expect("negation word");
    assert_eq!(w.text(), vec!['n', 'o']);
    let (w2, e2) = d.word_for_num(3).expect("a word for three");
    assert_eq!(w2.text(), vec!['h', 'o']);
    assert_eq!(e2.definition, "3");
    assert!(d.word_for_num(9).is_none());
    // The taxonomy's leaves were folded in as noun entries.
    let cheese = d.get(&word("paka")).expect("leaf word is stored");
    assert!(matches!(cheese.function, WordFunction::Ingredient));
    assert_eq!(cheese.definition, "cheese");
}

#[test]
fn ingredient_words_round_trip_through_the_taxonomy() {
    // The path invariant on every leaf: the word found for an ingredient
    // walks back to an ingredient of the same name.
    let tax = taxonomy();
    for name in ["cheese", "lettuce", "avocado", "bread-bottom", "bread-top"] {
        let n = ingr(name);
        let w = tax.to_word(&n).expect("leaf has a word");
        let back = tax.from_word(&w);
        assert_eq!(back.name, name);
    }
    assert_eq!(tax.to_word(&ingr("cheese")).unwrap().text(), vec!['p', 'a', 'k', 'a']);
}

#[test]
fn malformed_words_degrade_to_the_nearest_ancestor() {
    let tax = taxonomy();
    // A syllable matching no child leaves the walk in place at the root.
    let stray = word("pasa");
    assert_eq!(tax.from_word(&stray).name, "food");
    // A truncated base word stops at the category it reached.
    let partial = word("paku");
    assert_eq!(tax.from_word(&partial).name, "base");
}

#[test]
fn scenario_random_sandwich_is_base_filling_base() {
    // With one bread pair and fillings, a one-filling sandwich is always
    // bottom, one filling, top.
    let tax = taxonomy();
    for _ in 0..50 {
        let mut rng = Entropy::system();
        let s = Sandwich::random(&tax, 1, &mut rng).expect("taxonomy has base and fillings");
        let ns = names(&s);
        assert_eq!(ns.len(), 3);
        assert_eq!(ns[0], "bread-bottom");
        assert_eq!(ns[2], "bread-top");
        assert!(["cheese", "lettuce", "avocado"].contains(&ns[1].as_str()));
        assert!(s.complete);
    }
}

#[test]
fn scenario_add_spends_stock_and_then_stalls() {
    // Adding cheese on top once consumes the single unit of stock; the
    // second identical request changes nothing.
    let mut p = personality();
    p.inventory = vec![("cheese".to_string(), 1)];
    let add = Operation::Add(ingr("cheese"), Relative::Top);
    let s0 = sandwich_of(&["bread-bottom"]);
    let s1 = add.apply(s0, &mut p);
    assert_eq!(names(&s1), vec!["bread-bottom", "cheese"]);
    assert_eq!(p.inventory, vec![("cheese".to_string(), 0)]);
    let s2 = add.apply(s1, &mut p);
    assert_eq!(names(&s2), vec!["bread-bottom", "cheese"]);
    assert_eq!(p.inventory, vec![("cheese".to_string(), 0)]);
}

#[test]
fn scenario_encoded_removal_parses_and_removes() {
    // encode(Remove(cheese)), rendered to raw text, tokenized, annotated,
    // and parsed with the adverb skill at full weight, must recover an
    // operation that removes cheese.
    let mut p = personality();
    p.adverbs = 1000;
    let remove = Operation::Remove(ingr("cheese"));
    let encoded = remove.encode(&p).expect("lexicon covers the removal");
    let text = render_phrase(&encoded);
    let mut rng = Entropy::system();
    let (op, _tally) = sentence_new(&text, &p, &mut rng).expect("the phrase parses");
    let with_cheese = sandwich_of(&["bread-bottom", "cheese", "bread-top"]);
    let after = op.apply(with_cheese, &mut p);
    assert_eq!(names(&after), vec!["bread-bottom", "bread-top"]);
}

#[test]
fn scenario_meaning_cloud_converges_after_reinforcement() {
    // With "ka" read as the cheese noun and "ta" as the desire verb many
    // times over, the probabilistic parse recovers the addition almost
    // always. The taxonomy is rooted at cheese so the bare word walks to
    // it.
    let tax = node("cheese", "ka", vec![node(
        "base",
        "ku",
        vec![node("white", "mi", vec![leaf("bread-bottom", "to"), leaf("bread-top", "ti")])],
    )]);
    let mut words = word_list();
    words.push((word("ta"), entry(WordFunction::Desire, WordRole::Verb, "want")));
    let d = Dictionary::new(words, tax);
    let mut rng = Entropy::system();
    let mut p = Personality::new(d, &mut rng);
    for _ in 0..4000 {
        p.improve_match(&word("ka"), WordFunction::Ingredient);
        p.improve_match(&word("ta"), WordFunction::Desire);
    }
    let text = chars_of("ka ta");
    let mut hits = 0;
    for _ in 0..40 {
        if let Some(fp) = prob_sentence_new(&text, &p, &mut rng, 30) {
            if let Operation::Add(i, Relative::Top) = &fp.operation {
                if i.name == "cheese" {
                    hits += 1;
                }
            }
        }
    }
    assert!(hits >= 35, "only {hits} of 40 trials recovered the addition");
}

#[test]
fn scenario_unlearned_adposition_gives_plain_addition() {
    // desired [bottom, lettuce, top] against result [bottom], with no
    // shyness and the adposition skill unlearned, asks for lettuce on top
    // rather than a positional correction.
    let mut p = personality();
    p.adposition = 0;
    p.numbers = 0;
    p.adverbs = 0;
    let mut order = Order {
        desired: sandwich_of(&["bread-bottom", "lettuce", "bread-top"]),
        history: Vec::new(),
        last_result: None,
        persistent_ops: Vec::new(),
    };
    let result = sandwich_of(&["bread-bottom"]);
    let mut rng = Entropy::system();
    let op = order.pick_op(&p, &result, &mut rng).expect("more is wanted");
    match op {
        Operation::Add(i, Relative::Top) => assert_eq!(i.name, "lettuce"),
        other => panic!("expected a plain addition, got {:?}", other),
    }
    assert!(order.last_result.is_some());
}

#[test]
fn pick_op_finishes_when_everything_is_there() {
    let p = personality();
    let mut order = Order {
        desired: sandwich_of(&["bread-bottom", "cheese"]),
        history: Vec::new(),
        last_result: None,
        persistent_ops: Vec::new(),
    };
    let done = sandwich_of(&["bread-bottom", "cheese"]);
    let mut rng = Entropy::system();
    assert!(order.pick_op(&p, &done, &mut rng).is_none());
}

#[test]
fn pick_op_removes_an_unasked_for_extra() {
    let mut p = personality();
    p.adverbs = 0;
    let mut order = Order {
        desired: sandwich_of(&["bread-bottom", "cheese", "bread-top"]),
        history: Vec::new(),
        last_result: None,
        persistent_ops: Vec::new(),
    };
    let result = sandwich_of(&["bread-bottom", "avocado"]);
    let mut rng = Entropy::system();
    let op = order.pick_op(&p, &result, &mut rng).expect("work remains");
    match op {
        Operation::Remove(i) => assert_eq!(i.name, "avocado"),
        other => panic!("expected a removal, got {:?}", other),
    }
}

#[test]
fn reverse_is_an_involution_where_promised() {
    // Add-on-top and Remove come back structurally unchanged after two
    // reversals; a persistent wrapping follows its body.
    let add = Operation::Add(ingr("cheese"), Relative::Top);
    match add.reverse().reverse() {
        Operation::Add(i, Relative::Top) => assert_eq!(i.name, "cheese"),
        other => panic!("unexpected {:?}", other),
    }
    let remove = Operation::Remove(ingr("lettuce"));
    match remove.reverse().reverse() {
        Operation::Remove(i) => assert_eq!(i.name, "lettuce"),
        other => panic!("unexpected {:?}", other),
    }
    let persist = Operation::Persist(Box::new(Operation::Remove(ingr("cheese"))));
    match persist.reverse().reverse() {
        Operation::Persist(inner) => match *inner {
            Operation::Remove(i) => assert_eq!(i.name, "cheese"),
            other => panic!("unexpected {:?}", other),
        },
        other => panic!("unexpected {:?}", other),
    }
    // The known exception: a positional addition forgets its anchor.
    let positional = Operation::Add(ingr("cheese"), Relative::Before(ingr("lettuce")));
    assert!(matches!(positional.reverse().reverse(), Operation::Add(_, Relative::Top)));
}

#[test]
fn removal_of_an_absent_ingredient_is_a_no_op() {
    let mut p = personality();
    let remove = Operation::Remove(ingr("avocado"));
    let s = sandwich_of(&["bread-bottom", "cheese"]);
    let after = remove.apply(s, &mut p);
    assert_eq!(names(&after), vec!["bread-bottom", "cheese"]);
}

#[test]
fn ensure_is_idempotent_where_addition_is_not() {
    let mut p = personality();
    p.inventory = vec![("cheese".to_string(), 10)];
    let ensure = Operation::Ensure(ingr("cheese"));
    let s0 = sandwich_of(&["bread-bottom"]);
    let s1 = ensure.apply(s0, &mut p);
    let s2 = ensure.apply(s1, &mut p);
    assert_eq!(s2.ensured.len(), 1);
    let add = Operation::Add(ingr("cheese"), Relative::Top);
    let t1 = add.apply(s2, &mut p);
    let t2 = add.apply(t1, &mut p);
    assert_eq!(names(&t2), vec!["bread-bottom", "cheese", "cheese"]);
}

#[test]
fn skill_upgrades_grow_and_saturate() {
    // One successful use at a tenth of full weight steps by the fixed
    // logarithmic gain; near the top the weight caps at full.
    let mut x: u32 = 100;
    Personality::upgrade_skill(&mut x, 1);
    assert_eq!(x, 121);
    let mut y: u32 = 999;
    Personality::upgrade_skill(&mut y, 5);
    assert_eq!(y, 1000);
    let mut z: u32 = 500;
    let mut last = z;
    for _ in 0..100 {
        Personality::upgrade_skill(&mut z, 1);
        assert!(z > last || z == 1000);
        assert!(z <= 1000);
        last = z;
    }
    assert_eq!(z, 1000);
    // Just above one percent the gain is one per mille per use.
    let mut low: u32 = 11;
    Personality::upgrade_skill(&mut low, 1);
    assert_eq!(low, 12);
    // At the gain floor nothing moves.
    let mut tiny: u32 = 10;
    Personality::upgrade_skill(&mut tiny, 3);
    assert_eq!(tiny, 10);
}

#[test]
fn skills_decay_by_a_sixth_of_the_gain() {
    let mut p = personality();
    p.adverbs = 1000;
    p.adposition = 100;
    p.conjunction = 10;
    p.numbers = 0;
    p.degrade_language_skills();
    assert_eq!(p.adverbs, 993);
    assert_eq!(p.adposition, 97);
    assert_eq!(p.conjunction, 10);
    assert_eq!(p.numbers, 0);
}

#[test]
fn eating_keeps_the_last_ten_sandwiches() {
    let mut p = personality();
    for k in 0..12 {
        let mut s = sandwich_of(&["bread-bottom"]);
        s.background_color = format!("#{k:08}");
        p.eat(s);
    }
    assert_eq!(p.history.len(), 10);
    assert_eq!(p.history[0].background_color, "#00000011");
}

#[test]
fn the_meaning_cloud_starts_flat_and_learns() {
    let mut p = personality();
    let flat = p.get_cloud_entry(&word("ka"));
    assert!(flat.iter().all(|(_, w)| *w == 1));
    p.improve_match(&word("ka"), WordFunction::Desire);
    let learned = p.get_cloud_entry(&word("ka"));
    let desire_weight: u32 = learned
        .iter()
        .filter(|(e, _)| matches!(e.function, WordFunction::Desire))
        .map(|(_, w)| *w)
        .next()
        .unwrap();
    assert_eq!(desire_weight, 2);
}

#[test]
fn entropy_gates_obey_their_extremes() {
    let mut rng = Entropy::system();
    for _ in 0..100 {
        assert!(!rng.chance(0));
        assert!(rng.chance(1000));
        assert!(rng.below(5) < 5);
        assert_eq!(rng.below(1), 0);
    }
}

#[test]
fn scripted_entropy_replays_its_draws() {
    let mut rng = Entropy::scripted(vec![3, 7]);
    assert_eq!(rng.below(10), 3);
    assert_eq!(rng.below(10), 7);
    assert_eq!(rng.below(10), 3);
    assert_eq!(rng.below(2), 1);
}

#[test]
fn weighted_picks_respect_zero_weights() {
    let mut rng = Entropy::system();
    for _ in 0..50 {
        assert_eq!(rng.pick_weighted(&vec![0, 0, 5]), Some(2));
    }
    assert_eq!(rng.pick_weighted(&vec![0, 0]), None);
    assert_eq!(rng.pick_weighted(&Vec::new()), None);
}

#[test]
fn judging_a_sandwich_counts_the_edits() {
    let tax = taxonomy();
    let mut rng = Entropy::system();
    let mut ordering = OrderingSandwich::new(&tax, &mut rng).expect("taxonomy serves");
    ordering.sandwich = sandwich_of(&["bread-bottom", "cheese", "bread-top"]);
    let perfect = sandwich_of(&["bread-bottom", "cheese", "bread-top"]);
    assert_eq!(ordering.judge_sandwich(&perfect), 0);
    let off_by_one = sandwich_of(&["bread-bottom", "lettuce", "bread-top"]);
    assert_eq!(ordering.judge_sandwich(&off_by_one), 1);
    let shorter = sandwich_of(&["bread-bottom"]);
    assert_eq!(ordering.judge_sandwich(&shorter), 2);
}

#[test]
fn frames_trim_their_zero_padding() {
    let mut buf = vec![2u8, 5, 9, 0, 0, 0];
    assert_eq!(frame_content_len(&buf), 3);
    buf = vec![0u8; 8];
    assert_eq!(frame_content_len(&buf), 0);
    buf = vec![0u8, 0, 7];
    assert_eq!(frame_content_len(&buf), 3);
    assert!(MESSAGE_MAX_SIZE == 4096);
    let m = Message::new(Some("kata".to_string()), None);
    assert_eq!(m.text.as_deref(), Some("kata"));
    assert!(m.sandwich.is_none());
}

#[test]
fn events_raise_stress_and_run_out() {
    let e = Event::LunchRush(1000);
    assert_eq!(e.stress(), 200);
    assert_eq!(e.duration(), 3600000);
    assert!(!e.is_over(1000 + 3600000));
    assert!(e.is_over(1001 + 3600000));
    let mut p = personality();
    assert_eq!(p.stress(), 100);
    p.event = Some(e);
    assert_eq!(p.stress(), 200);
}

#[test]
fn severities_scale_reactions() {
    assert_eq!(Severity::Minor.reaction_chance(), 200);
    assert_eq!(Severity::Mild.reaction_chance(), 400);
    assert_eq!(Severity::Severe.reaction_chance(), 600);
    assert_eq!(Severity::Fatal.reaction_chance(), 1000);
    let mut rng = Entropy::system();
    let p = personality();
    assert!(!p.allergic_reaction(&ingr("cheese"), &mut rng));
}

#[test]
fn encoding_fails_without_the_needed_words() {
    let bare = Dictionary::new(Vec::new(), taxonomy());
    let mut rng = Entropy::system();
    let p = Personality::new(bare, &mut rng);
    let remove = Operation::Remove(ingr("cheese"));
    assert!(remove.encode(&p).is_none());
    let full = personality();
    assert!(remove.encode(&full).is_some());
}

#[test]
fn parsing_garbage_yields_nothing() {
    let p = personality();
    let mut rng = Entropy::system();
    assert!(sentence_new(&chars_of("zz!"), &p, &mut rng).is_none());
    // Grammatical words in an ungrammatical order fail too.
    assert!(sentence_new(&chars_of("nu nu"), &p, &mut rng).is_none());
}

#[test]
fn a_taxonomy_without_base_refuses_sandwiches() {
    let bare = node("food", "pa", vec![leaf("cheese", "ka")]);
    let mut rng = Entropy::system();
    assert!(bare.random_base(&mut rng).is_none());
    assert!(Sandwich::random(&bare, 1, &mut rng).is_none());
    let got = bare.random(&mut rng).expect("a free leaf exists");
    assert_eq!(got.name, "cheese");
}

#[test]
fn shy_agents_ask_before_adding() {
    // With shyness at full weight and nothing confirmed, the next desired
    // ingredient is asked after, not asserted.
    let mut p = personality();
    p.shyness = 1000;
    p.adposition = 0;
    p.numbers = 0;
    p.adverbs = 0;
    let mut order = Order {
        desired: sandwich_of(&["bread-bottom", "lettuce", "bread-top"]),
        history: Vec::new(),
        last_result: None,
        persistent_ops: Vec::new(),
    };
    let result = sandwich_of(&["bread-bottom"]);
    let mut rng = Entropy::system();
    let op = order.pick_op(&p, &result, &mut rng).expect("more is wanted");
    match op {
        Operation::CheckFor(i) => assert_eq!(i.name, "lettuce"),
        other => panic!("expected a question, got {:?}", other),
    }
}

#[test]
fn responses_follow_the_stock() {
    let mut p = personality();
    p.inventory = vec![("cheese".to_string(), 0)];
    let add = Operation::Add(ingr("cheese"), Relative::Top);
    assert!(matches!(add.respond(&p), Some(Operation::Remove(_))));
    let ask = Operation::CheckFor(ingr("cheese"));
    assert!(matches!(ask.respond(&p), Some(Operation::Remove(_))));
    p.inventory = vec![("cheese".to_string(), 3)];
    assert!(add.respond(&p).is_none());
    assert!(matches!(ask.respond(&p), Some(Operation::Ensure(_))));
    assert!(Operation::Finish.respond(&p).is_none());
}

#[test]
fn questions_swap_statements_and_queries() {
    let add = Operation::Add(ingr("cheese"), Relative::Top);
    assert!(matches!(add.question(), Some(Operation::CheckFor(_))));
    let ask = Operation::CheckFor(ingr("cheese"));
    assert!(matches!(ask.question(), Some(Operation::Add(_, Relative::Top))));
    assert!(Operation::Remove(ingr("cheese")).question().is_none());
    assert!(Operation::Finish.question().is_none());
}

#[test]
fn encodings_follow_the_fixed_word_order() {
    let p = personality();
    let texts = |op: &Operation| -> Vec<String> {
        op.encode(&p)
            .expect("covered")
            .iter()
            .map(|aw| aw.word.text().into_iter().collect::<String>())
            .collect()
    };
    assert_eq!(texts(&Operation::Remove(ingr("cheese"))), vec!["no", "paka", "nu"]);
    assert_eq!(texts(&Operation::CheckFor(ingr("cheese"))), vec!["ke", "paka", "ha"]);
    assert_eq!(
        texts(&Operation::Add(ingr("cheese"), Relative::Before(ingr("bread-top")))),
        vec!["pakumiti", "pe", "paka", "nu"],
    );
    assert_eq!(
        texts(&Operation::RemoveAll(ingr("cheese"))),
        vec!["se", "no", "paka", "nu"],
    );
    assert_eq!(texts(&Operation::Finish), vec!["ko"]);
}

#[test]
fn repetition_stops_when_the_stock_runs_out() {
    let mut p = personality();
    p.inventory = vec![("cheese".to_string(), 2)];
    let thrice = Operation::Repeat(3, Box::new(Operation::Add(ingr("cheese"), Relative::Top)));
    let after = thrice.apply(sandwich_of(&["bread-bottom"]), &mut p);
    assert_eq!(names(&after), vec!["bread-bottom", "cheese", "cheese"]);
}

#[test]
fn remove_all_clears_every_occurrence() {
    let mut p = personality();
    let sweep = Operation::RemoveAll(ingr("cheese"));
    let after = sweep.apply(
        sandwich_of(&["bread-bottom", "cheese", "lettuce", "cheese", "bread-top"]),
        &mut p,
    );
    assert_eq!(names(&after), vec!["bread-bottom", "lettuce", "bread-top"]);
    assert!(matches!(sweep.reverse(), Operation::Ensure(_)));
    assert!(Operation::Persist(Box::new(sweep)).is_persistent());
}

#[test]
fn sandwiches_render_to_their_taxonomy_words() {
    let d = dictionary();
    let s = sandwich_of(&["bread-bottom", "cheese"]);
    let words: Vec<String> = s
        .to_words(&d)
        .iter()
        .map(|w| w.text().into_iter().collect::<String>())
        .collect();
    assert_eq!(words, vec!["pakumito", "paka"]);
}

#[test]
fn spontaneity_splices_a_favorite_into_the_desires() {
    // The impulse branch both orders the favorite and mutates the desires:
    // the next turns treat it as wanted, not as an extra to remove.
    let mut p = personality();
    p.spontaneity = 1000;
    p.preferences = vec![Preference { ingredient: ingr("cheese"), severity: 1000 }];
    p.adverbs = 0;
    p.adposition = 0;
    p.numbers = 0;
    let mut order = Order {
        desired: sandwich_of(&["bread-bottom", "bread-top"]),
        history: Vec::new(),
        last_result: None,
        persistent_ops: Vec::new(),
    };
    let result = sandwich_of(&["bread-bottom"]);
    let mut rng = Entropy::scripted(vec![0]);
    let op = order.pick_op(&p, &result, &mut rng).expect("work remains");
    match op {
        Operation::Add(i, Relative::Top) => assert_eq!(i.name, "cheese"),
        other => panic!("expected the favorite ordered on top, got {:?}", other),
    }
    assert_eq!(names(&order.desired), vec!["bread-bottom", "bread-top", "cheese"]);
}

#[test]
fn unlearned_adverbs_consume_the_negation_without_effect() {
    // Partial comprehension: with the adverb skill unlearned, the negation
    // word is understood as a word but its reversal is lost, so the
    // removal phrase reads as a plain addition — while the reported tally
    // still counts the adverb for the learning loop.
    let mut p = personality();
    p.adverbs = 0;
    p.adposition = 0;
    p.numbers = 0;
    let mut rng = Entropy::system();
    let (op, tally) = sentence_new(&chars_of("no paka nu"), &p, &mut rng).expect("parses");
    match op {
        Operation::Add(i, Relative::Top) => assert_eq!(i.name, "cheese"),
        other => panic!("expected the inner addition, got {:?}", other),
    }
    assert_eq!(tally.adverbs, 1);
    assert_eq!(tally.conjunction, 0);
}

#[test]
fn unlearned_conjunctions_keep_only_the_second_conjunct() {
    // Partial comprehension: a failed conjunction roll drops the first
    // clause silently; the conjunction is still tallied once.
    let mut p = personality();
    p.conjunction = 0;
    p.adverbs = 1000;
    p.adposition = 1000;
    p.numbers = 1000;
    let mut rng = Entropy::system();
    let (op, tally) =
        sentence_new(&chars_of("paka nu wi pale nu"), &p, &mut rng).expect("parses");
    match op {
        Operation::Add(i, Relative::Top) => assert_eq!(i.name, "lettuce"),
        other => panic!("expected only the second conjunct, got {:?}", other),
    }
    assert_eq!(tally.conjunction, 1);
}

#[test]
fn unlearned_numbers_consume_the_count_without_effect() {
    // Partial comprehension: a failed number roll uses the body unmodified;
    // the number word is consumed and still tallied.
    let mut p = personality();
    p.numbers = 0;
    p.adverbs = 0;
    p.adposition = 0;
    let mut rng = Entropy::system();
    let (op, tally) = sentence_new(&chars_of("tu paka nu"), &p, &mut rng).expect("parses");
    match op {
        Operation::Add(i, Relative::Top) => assert_eq!(i.name, "cheese"),
        other => panic!("expected the bare addition, got {:?}", other),
    }
    assert_eq!(tally.numbers, 1);
}

#[test]
fn allergic_reactions_follow_covering_allergies() {
    let mut p = personality();
    let mut rng = Entropy::system();
    p.allergies = vec![Preference { ingredient: ingr("cheese"), severity: 1000 }];
    // A covering allergy at full severity always reacts; a non-covering
    // ingredient never does.
    assert!(p.allergic_reaction(&ingr("cheese"), &mut rng));
    assert!(!p.allergic_reaction(&ingr("avocado"), &mut rng));
    p.allergies = Vec::new();
    assert!(!p.allergic_reaction(&ingr("cheese"), &mut rng));
}
