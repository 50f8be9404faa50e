//! Round trips through the full pipeline: operations encoded to surface
//! phrases, rendered to raw text, tokenized, annotated, and parsed back
//! under full comprehension, plus one whole negotiation exchange.

use sandwich::behavior::ops::{Operation, Order, Relative};
use sandwich::behavior::personality::{Language, Personality};
use sandwich::client::{customer_learn, customer_next, customer_receive, server_turn};
use sandwich::grammar::{chars_of, Dictionary, DictionaryEntry, Syllable, Word, WordFunction, WordRole};
use sandwich::parser::{sentence_new, FullParse};
use sandwich::random::Entropy;
use sandwich::sandwich::{Ingredient, Sandwich};

fn sy(a: char, b: char) -> Syllable {
    Syllable { first: a, second: b }
}

fn word(text: &str) -> Word {
    let cs: Vec<char> = text.chars().collect();
    let mut syllables = Vec::new();
    let mut i = 0;
    while i + 1 < cs.len() {
        syllables.push(sy(cs[i], cs[i + 1]));
        i += 2;
    }
    Word { syllables }
}

fn leaf(name: &str, m: &str) -> Ingredient {
    let cs: Vec<char> = m.chars().collect();
    Ingredient { name: name.to_string(), morpheme: sy(cs[0], cs[1]), children: None }
}

fn node(name: &str, m: &str, children: Vec<Ingredient>) -> Ingredient {
    let cs: Vec<char> = m.chars().collect();
    Ingredient { name: name.to_string(), morpheme: sy(cs[0], cs[1]), children: Some(children) }
}

fn taxonomy() -> Ingredient {
    node(
        "food",
        "pa",
        vec![
            node(
                "base",
                "ku",
                vec![node("white", "mi", vec![leaf("bread-bottom", "to"), leaf("bread-top", "ti")])],
            ),
            leaf("cheese", "ka"),
            leaf("lettuce", "le"),
            leaf("avocado", "wo"),
        ],
    )
}

fn entry(f: WordFunction, r: WordRole, gloss: &str) -> DictionaryEntry {
    DictionaryEntry { function: f, role: r, definition: gloss.to_string() }
}

fn dictionary() -> Dictionary {
    Dictionary::new(
        vec![
            (word("nu"), entry(WordFunction::Desire, WordRole::Verb, "want")),
            (word("ha"), entry(WordFunction::Have, WordRole::Verb, "have")),
            (word("no"), entry(WordFunction::Negation, WordRole::Adverb, "not")),
            (word("se"), entry(WordFunction::Ever, WordRole::Adverb, "ever")),
            (word("wi"), entry(WordFunction::And, WordRole::NounConjunction, "and")),
            (word("ko"), entry(WordFunction::Greeting, WordRole::Special, "hello")),
            (word("si"), entry(WordFunction::Affirmation, WordRole::Special, "yes")),
            (word("ke"), entry(WordFunction::Question, WordRole::Special, "question")),
            (word("pe"), entry(WordFunction::Before, WordRole::Preposition, "before")),
            (word("po"), entry(WordFunction::After, WordRole::Preposition, "after")),
            (word("tu"), entry(WordFunction::Number, WordRole::Adjective, "2")),
        ],
        taxonomy(),
    )
}

fn full_personality() -> Personality {
    let mut rng = Entropy::system();
    let mut p = Personality::new(dictionary(), &mut rng);
    p.allergies = Vec::new();
    p.preferences = Vec::new();
    p.shyness = 0;
    p.forgetfulness = 0;
    p.spontaneity = 0;
    p.adverbs = 1000;
    p.adposition = 1000;
    p.conjunction = 1000;
    p.numbers = 1000;
    p
}

fn ingr(name: &str) -> Ingredient {
    taxonomy().from_def(name).expect("fixture name").clone()
}

fn names(s: &Sandwich) -> Vec<String> {
    s.ingredients.iter().map(|i| i.name.clone()).collect()
}

fn sandwich_of(picked: &[&str]) -> Sandwich {
    let tax = taxonomy();
    let mut v = Vec::new();
    for n in picked {
        v.push(tax.from_def(n).expect("fixture name").clone());
    }
    Sandwich::new(v)
}

fn render(words: &Vec<sandwich::grammar::AnnotatedWord>) -> Vec<char> {
    let mut out = Vec::new();
    for (i, aw) in words.iter().enumerate() {
        if i > 0 {
            out.push(' ');
        }
        out.extend(aw.word.text());
    }
    out
}

/// Encodes the operation, renders it to raw text, and parses it back under
/// full comprehension; both operations are then applied to the same
/// starting sandwich and must agree, ingredient for ingredient.
fn round_trips_to_same_effect(op: Operation, start: &[&str]) {
    let p = full_personality();
    let encoded = op.encode(&p).expect("the lexicon covers this operation");
    let text = render(&encoded);
    let mut rng = Entropy::system();
    let (back, _tally) = sentence_new(&text, &p, &mut rng).expect("the encoding parses");
    let mut p1 = full_personality();
    let mut p2 = full_personality();
    let a = op.apply(sandwich_of(start), &mut p1);
    let b = back.apply(sandwich_of(start), &mut p2);
    assert_eq!(names(&a), names(&b), "effects diverged for {:?} vs {:?}", op, back);
    assert_eq!(a.complete, b.complete);
    assert_eq!(p1.inventory, p2.inventory);
}

#[test]
fn additions_round_trip() {
    round_trips_to_same_effect(Operation::Add(ingr("cheese"), Relative::Top), &["bread-bottom"]);
    round_trips_to_same_effect(
        Operation::Add(ingr("cheese"), Relative::Before(ingr("bread-top"))),
        &["bread-bottom", "bread-top"],
    );
    round_trips_to_same_effect(
        Operation::Add(ingr("cheese"), Relative::After(ingr("bread-bottom"))),
        &["bread-bottom", "bread-top"],
    );
}

#[test]
fn removals_round_trip() {
    round_trips_to_same_effect(
        Operation::Remove(ingr("cheese")),
        &["bread-bottom", "cheese", "bread-top"],
    );
}

#[test]
fn confirmations_round_trip() {
    round_trips_to_same_effect(Operation::Ensure(ingr("cheese")), &["bread-bottom"]);
}

#[test]
fn repetitions_round_trip() {
    round_trips_to_same_effect(
        Operation::Repeat(2, Box::new(Operation::Add(ingr("cheese"), Relative::Top))),
        &["bread-bottom"],
    );
}

#[test]
fn compounds_round_trip() {
    round_trips_to_same_effect(
        Operation::Compound(
            Box::new(Operation::Add(ingr("cheese"), Relative::Top)),
            Box::new(Operation::Add(ingr("lettuce"), Relative::Top)),
        ),
        &["bread-bottom"],
    );
}

#[test]
fn persistent_removals_round_trip() {
    round_trips_to_same_effect(
        Operation::Persist(Box::new(Operation::Remove(ingr("avocado")))),
        &["bread-bottom", "avocado"],
    );
}

#[test]
fn greetings_and_affirmations_round_trip() {
    round_trips_to_same_effect(Operation::Finish, &["bread-bottom"]);
    round_trips_to_same_effect(Operation::Affirm, &["bread-bottom"]);
}

#[test]
fn parsed_operations_report_their_constructs() {
    // The conjunction and the number word each count once in the reported
    // tally, nested operations included.
    let p = full_personality();
    let op = Operation::Compound(
        Box::new(Operation::Repeat(2, Box::new(Operation::Add(ingr("cheese"), Relative::Top)))),
        Box::new(Operation::Add(ingr("lettuce"), Relative::Top)),
    );
    let encoded = op.encode(&p).expect("covered");
    let mut rng = Entropy::system();
    let (_, tally) = sentence_new(&render(&encoded), &p, &mut rng).expect("parses");
    assert_eq!(tally.conjunction, 1);
    assert_eq!(tally.numbers, 1);
    let skills = op.skills();
    assert_eq!(skills.conjunction, 1);
    assert_eq!(skills.numbers, 1);
    assert_eq!(skills.adposition, 0);
}

#[test]
fn a_whole_exchange_builds_the_sandwich() {
    // A customer with a fixed desire and a server with full stock talk
    // until the customer is satisfied: every sent operation goes through
    // the real encode-render-parse pipeline.
    let mut customer = full_personality();
    let mut server = full_personality();
    let mut customer_order = Order {
        desired: sandwich_of(&["bread-bottom", "cheese", "lettuce", "bread-top"]),
        history: Vec::new(),
        last_result: None,
        persistent_ops: Vec::new(),
    };
    let mut server_order = Order {
        desired: sandwich_of(&["bread-bottom"]),
        history: Vec::new(),
        last_result: None,
        persistent_ops: Vec::new(),
    };
    // Keep the exchange single-minded: one request per turn.
    customer.planned = 0;
    server.spite = 0;
    let mut rng = Entropy::system();
    let mut plate = Sandwich::new(Vec::new());
    for _ in 0..16 {
        let op = match customer_next(&mut customer_order, &mut customer, &plate.clone(), &mut rng)
        {
            Some(op) => op,
            None => break,
        };
        let text = render(&op.encode(&customer).expect("lexicon covers the request"));
        customer_order.archive(op);
        let (parsed, tally) = sentence_new(&text, &server, &mut rng).expect("server understands");
        let full = FullParse { operation: parsed, lang: tally, lex: Vec::new() };
        let (next_plate, _response) =
            server_turn(&mut server_order, &mut server, full, plate, &mut rng);
        plate = next_plate;
        let learned = customer_learn(&customer_order, &mut customer, &plate.clone());
        let _ = learned;
    }
    assert_eq!(names(&plate), vec!["bread-bottom", "cheese", "lettuce", "bread-top"]);
}

#[test]
fn a_counter_operation_reshapes_the_desire() {
    // The server answers that it is out of cheese; receiving the removal
    // trims cheese out of the customer's desired sandwich.
    let mut customer = full_personality();
    let mut order = Order {
        desired: sandwich_of(&["bread-bottom", "cheese", "bread-top"]),
        history: Vec::new(),
        last_result: None,
        persistent_ops: Vec::new(),
    };
    let counter = FullParse {
        operation: Operation::Remove(ingr("cheese")),
        lang: Language::default(),
        lex: Vec::new(),
    };
    let observed = sandwich_of(&["bread-bottom"]);
    customer_receive(&mut order, &mut customer, counter, &observed);
    assert_eq!(names(&order.desired), vec!["bread-bottom", "bread-top"]);
    assert!(customer.last_lex.is_some());
}

#[test]
fn standing_edits_hold_across_turns() {
    // A persistent removal joins the standing edits and hits the sandwich
    // again on the next turn, before the new request applies.
    let mut server = full_personality();
    server.spite = 0;
    let mut order = Order {
        desired: sandwich_of(&["bread-bottom"]),
        history: Vec::new(),
        last_result: None,
        persistent_ops: Vec::new(),
    };
    let mut rng = Entropy::system();
    let never = FullParse {
        operation: Operation::Persist(Box::new(Operation::Remove(ingr("avocado")))),
        lang: Language::default(),
        lex: Vec::new(),
    };
    let (plate, _) = server_turn(
        &mut order,
        &mut server,
        never,
        sandwich_of(&["bread-bottom", "avocado"]),
        &mut rng,
    );
    assert_eq!(names(&plate), vec!["bread-bottom"]);
    assert_eq!(order.persistent_ops.len(), 1);
    let more = FullParse {
        operation: Operation::Add(ingr("cheese"), Relative::Top),
        lang: Language::default(),
        lex: Vec::new(),
    };
    let (plate2, _) = server_turn(
        &mut order,
        &mut server,
        more,
        sandwich_of(&["bread-bottom", "avocado"]),
        &mut rng,
    );
    assert_eq!(names(&plate2), vec!["bread-bottom", "cheese"]);
}
