//! Surface forms of the constructed language: syllables, words, and the
//! tokenizer that splits a raw phrase into syllable words.
//!
//! A syllable is one consonant plus one vowel, in either order. A word is a
//! nonempty run of syllables; words are separated by single spaces, and a
//! phrase may carry one trailing newline. A phrase whose letters cannot be
//! split this way does not tokenize at all.

use vstd::prelude::*;

use crate::sandwich::{spec_leaves, Ingredient};

verus! {

/// The consonant inventory of the language.
pub open spec fn spec_consonant(c: char) -> bool {
    c == 'p' || c == 't' || c == 'k' || c == 'h' || c == 'm' || c == 'n' || c == 'w' || c == 'l'
        || c == 's'
}

/// The vowel inventory of the language.
pub open spec fn spec_vowel(c: char) -> bool {
    c == 'a' || c == 'i' || c == 'o' || c == 'u' || c == 'e'
}

/// Whether the letter is a consonant of the language.
pub fn is_consonant(c: char) -> (r: bool)
    ensures
        r == spec_consonant(c),
{
    c == 'p' || c == 't' || c == 'k' || c == 'h' || c == 'm' || c == 'n' || c == 'w' || c == 'l'
        || c == 's'
}

/// Whether the letter is a vowel of the language.
pub fn is_vowel(c: char) -> (r: bool)
    ensures
        r == spec_vowel(c),
{
    c == 'a' || c == 'i' || c == 'o' || c == 'u' || c == 'e'
}

/// A two-letter syllable: consonant-vowel or vowel-consonant.
#[derive(Clone, Copy, PartialEq, Eq, Structural, Debug, Hash)]
pub struct Syllable {
    pub first: char,
    pub second: char,
}

/// A syllable is well formed when its letters pair a consonant with a vowel.
pub open spec fn syllable_wf(s: Syllable) -> bool {
    (spec_consonant(s.first) && spec_vowel(s.second)) || (spec_vowel(s.first) && spec_consonant(
        s.second,
    ))
}

/// A word of the language: a nonempty sequence of syllables.
#[derive(Debug)]
pub struct Word {
    pub syllables: Vec<Syllable>,
}

impl View for Word {
    type V = Seq<Syllable>;

    open spec fn view(&self) -> Seq<Syllable> {
        self.syllables@
    }
}

impl Clone for Word {
    fn clone(&self) -> (r: Self)
        ensures
            r@ == self@,
    {
        let r = Word { syllables: self.syllables.clone() };
        proof {
            assert(r@ =~= self@);
        }
        r
    }
}

impl Word {
    /// The surface letters of the word.
    pub fn text(&self) -> (r: Vec<char>)
        ensures
            r@ == spec_word_chars(self@),
    {
        let mut out: Vec<char> = Vec::new();
        let mut i: usize = 0;
        proof {
            assert(self@.skip(0) =~= self@);
            assert(out@ + spec_word_chars(self@) =~= spec_word_chars(self@));
        }
        while i < self.syllables.len()
            invariant
                i <= self@.len(),
                spec_word_chars(self@) == out@ + spec_word_chars(self@.skip(i as int)),
            decreases self@.len() - i,
        {
            let sy: Syllable = self.syllables[i];
            proof {
                assert(self@.skip(i as int)[0] == sy);
                assert(self@.skip(i as int).drop_first() =~= self@.skip(i + 1));
                assert(out@ + (seq![sy.first, sy.second] + spec_word_chars(self@.skip(i + 1)))
                    =~= (out@ + seq![sy.first, sy.second]) + spec_word_chars(self@.skip(i + 1)));
            }
            out.push(sy.first);
            out.push(sy.second);
            i = i + 1;
        }
        proof {
            assert(self@.skip(self@.len() as int) =~= Seq::<Syllable>::empty());
            assert(out@ + Seq::<char>::empty() =~= out@);
        }
        out
    }

    /// Whether two words have the same syllables.
    pub fn same(&self, other: &Word) -> (r: bool)
        ensures
            r == (self@ == other@),
    {
        if self.syllables.len() != other.syllables.len() {
            proof {
                assert(self@.len() != other@.len());
            }
            return false;
        }
        let mut i: usize = 0;
        while i < self.syllables.len()
            invariant
                i <= self@.len(),
                self@.len() == other@.len(),
                forall|k: int| 0 <= k < i ==> self@[k] == other@[k],
            decreases self@.len() - i,
        {
            let a: Syllable = self.syllables[i];
            let b: Syllable = other.syllables[i];
            if !(a == b) {
                return false;
            }
            i = i + 1;
        }
        proof {
            assert(self@ =~= other@);
        }
        true
    }
}

/// A word is well formed when it has at least one syllable and each syllable
/// is well formed.
pub open spec fn word_wf(w: Seq<Syllable>) -> bool {
    w.len() > 0 && forall|i: int| 0 <= i < w.len() ==> syllable_wf(w[i])
}

/// The surface letters of a word: its syllables' letters in order.
pub open spec fn spec_word_chars(w: Seq<Syllable>) -> Seq<char>
    decreases w.len(),
{
    if w.len() == 0 {
        Seq::empty()
    } else {
        seq![w[0].first, w[0].second] + spec_word_chars(w.drop_first())
    }
}

/// The surface letters of a phrase: its words' letters joined by single
/// spaces.
pub open spec fn spec_phrase_chars(ws: Seq<Seq<Syllable>>) -> Seq<char>
    decreases ws.len(),
{
    if ws.len() == 0 {
        Seq::empty()
    } else if ws.len() == 1 {
        spec_word_chars(ws[0])
    } else {
        spec_word_chars(ws[0]) + seq![' '] + spec_phrase_chars(ws.drop_first())
    }
}

/// The syllable read at position `i`, if the two letters there form one.
pub open spec fn spec_syllable_at(s: Seq<char>, i: int) -> Option<Syllable> {
    if 0 <= i && i + 2 <= s.len() && ((spec_consonant(s[i]) && spec_vowel(s[i + 1])) || (spec_vowel(
        s[i],
    ) && spec_consonant(s[i + 1]))) {
        Some(Syllable { first: s[i], second: s[i + 1] })
    } else {
        None
    }
}

/// The syllables of the maximal word starting at position `i`.
pub open spec fn spec_word_at(s: Seq<char>, i: int) -> Seq<Syllable>
    decreases s.len() - i,
    when 0 <= i <= s.len()
{
    match spec_syllable_at(s, i) {
        Some(sy) => seq![sy] + spec_word_at(s, i + 2),
        None => Seq::empty(),
    }
}

/// The position right after the maximal word starting at position `i`.
pub open spec fn spec_word_end(s: Seq<char>, i: int) -> int
    decreases s.len() - i,
    when 0 <= i <= s.len()
{
    match spec_syllable_at(s, i) {
        Some(_) => spec_word_end(s, i + 2),
        None => i,
    }
}

/// The greedy word split of the letters from position `i` on: each word is a
/// maximal nonempty syllable run, words are separated by single spaces, and
/// the whole remainder must be consumed.
pub open spec fn spec_tokenize(s: Seq<char>, i: int) -> Option<Seq<Seq<Syllable>>>
    decreases s.len() - i,
    when 0 <= i <= s.len()
    via spec_tokenize_decreases
{
    let w = spec_word_at(s, i);
    let e = spec_word_end(s, i);
    if w.len() == 0 {
        None
    } else if e == s.len() {
        Some(seq![w])
    } else if s[e] == ' ' {
        match spec_tokenize(s, e + 1) {
            Some(rest) => Some(seq![w] + rest),
            None => None,
        }
    } else {
        None
    }
}

#[via_fn]
proof fn spec_tokenize_decreases(s: Seq<char>, i: int) {
    lemma_word_end_bounds(s, i);
}

/// The end of a word lies between its start and the end of the input, and is
/// the start plus two letters per syllable.
pub proof fn lemma_word_end_bounds(s: Seq<char>, i: int)
    requires
        0 <= i <= s.len(),
    ensures
        i <= spec_word_end(s, i) <= s.len(),
        spec_word_end(s, i) == i + 2 * spec_word_at(s, i).len(),
        spec_word_at(s, i).len() > 0 ==> spec_word_end(s, i) >= i + 2,
    decreases s.len() - i,
{
    match spec_syllable_at(s, i) {
        Some(_) => lemma_word_end_bounds(s, i + 2),
        None => {},
    }
}

/// A word's letters are two per syllable.
pub proof fn lemma_word_chars_len(w: Seq<Syllable>)
    ensures
        spec_word_chars(w).len() == 2 * w.len(),
    decreases w.len(),
{
    if w.len() > 0 {
        lemma_word_chars_len(w.drop_first());
    }
}

/// The greedy word read at a position holding a well-formed word's letters,
/// followed by the end of the input or a space, is exactly that word.
pub proof fn lemma_word_at_exact(s: Seq<char>, i: int, w: Seq<Syllable>)
    requires
        forall|k: int| 0 <= k < w.len() ==> syllable_wf(#[trigger] w[k]),
        0 <= i,
        i + 2 * w.len() <= s.len(),
        s.subrange(i, i + 2 * w.len()) == spec_word_chars(w),
        i + 2 * w.len() == s.len() || s[i + 2 * w.len()] == ' ',
    ensures
        spec_word_at(s, i) == w,
        spec_word_end(s, i) == i + 2 * w.len(),
    decreases w.len(),
{
    lemma_word_chars_len(w);
    if w.len() == 0 {
        if i < s.len() {
            assert(s[i] == ' ');
            assert(spec_syllable_at(s, i) is None);
        }
        assert(spec_word_at(s, i) =~~= w);
    } else {
        let wc = spec_word_chars(w);
        assert(wc == seq![w[0].first, w[0].second] + spec_word_chars(w.drop_first()));
        assert(s.subrange(i, i + 2 * w.len())[0] == s[i]);
        assert(s.subrange(i, i + 2 * w.len())[1] == s[i + 1]);
        assert(wc[0] == w[0].first);
        assert(wc[1] == w[0].second);
        assert(spec_syllable_at(s, i) == Some(w[0]));
        lemma_word_chars_len(w.drop_first());
        assert(s.subrange(i + 2, i + 2 * w.len()) =~~= spec_word_chars(w.drop_first())) by {
            assert forall|k: int|
                0 <= k < 2 * w.len() - 2 implies s.subrange(i + 2, i + 2 * w.len())[k]
                == spec_word_chars(w.drop_first())[k] by {
                assert(s.subrange(i + 2, i + 2 * w.len())[k] == s[i + 2 + k]);
                assert(s.subrange(i, i + 2 * w.len())[2 + k] == s[i + 2 + k]);
                assert(wc[2 + k] == spec_word_chars(w.drop_first())[k]);
            }
        }
        assert(forall|k: int|
            0 <= k < w.drop_first().len() ==> syllable_wf(#[trigger] w.drop_first()[k]));
        lemma_word_at_exact(s, i + 2, w.drop_first());
        assert(spec_word_at(s, i) =~~= seq![w[0]] + w.drop_first());
        assert(seq![w[0]] + w.drop_first() =~~= w);
    }
}

/// The greedy split of a position holding the rendered letters of a
/// well-formed word list, running to the end of the input, is exactly that
/// list.
pub proof fn lemma_tokenize_exact(s: Seq<char>, i: int, ws: Seq<Seq<Syllable>>)
    requires
        ws.len() > 0,
        forall|k: int| 0 <= k < ws.len() ==> word_wf(#[trigger] ws[k]),
        0 <= i <= s.len(),
        s.subrange(i, s.len() as int) == spec_phrase_chars(ws),
    ensures
        spec_tokenize(s, i) == Some(ws),
    decreases ws.len(),
{
    let pc = spec_phrase_chars(ws);
    assert(s.len() - i == pc.len());
    lemma_word_chars_len(ws[0]);
    if ws.len() == 1 {
        assert(pc == spec_word_chars(ws[0]));
        assert(s.subrange(i, i + 2 * ws[0].len()) =~~= spec_word_chars(ws[0])) by {
            assert forall|k: int|
                0 <= k < 2 * ws[0].len() implies s.subrange(i, i + 2 * ws[0].len())[k]
                == spec_word_chars(ws[0])[k] by {
                assert(s.subrange(i, s.len() as int)[k] == s[i + k]);
                assert(s.subrange(i, i + 2 * ws[0].len())[k] == s[i + k]);
            }
        }
        lemma_word_at_exact(s, i, ws[0]);
        assert(spec_tokenize(s, i) == Some(seq![ws[0]]));
        assert(seq![ws[0]] =~~= ws);
    } else {
        let rest = ws.drop_first();
        assert(pc == spec_word_chars(ws[0]) + seq![' '] + spec_phrase_chars(rest));
        let e = i + 2 * ws[0].len();
        assert(s.subrange(i, e) =~~= spec_word_chars(ws[0])) by {
            assert forall|k: int|
                0 <= k < 2 * ws[0].len() implies s.subrange(i, e)[k] == spec_word_chars(
                ws[0],
            )[k] by {
                assert(s.subrange(i, s.len() as int)[k] == s[i + k]);
                assert(s.subrange(i, e)[k] == s[i + k]);
                assert(pc[k] == (spec_word_chars(ws[0]) + seq![' '])[k]);
            }
        }
        assert(s.subrange(i, s.len() as int)[e - i] == s[e]);
        assert(pc[e - i] == ' ');
        lemma_word_at_exact(s, i, ws[0]);
        assert(forall|k: int| 0 <= k < rest.len() ==> word_wf(#[trigger] rest[k]));
        assert(s.subrange(e + 1, s.len() as int) =~~= spec_phrase_chars(rest)) by {
            assert forall|k: int|
                0 <= k < spec_phrase_chars(rest).len() implies s.subrange(
                e + 1,
                s.len() as int,
            )[k] == spec_phrase_chars(rest)[k] by {
                assert(s.subrange(e + 1, s.len() as int)[k] == s[e + 1 + k]);
                assert(s.subrange(i, s.len() as int)[e + 1 + k - i] == s[e + 1 + k]);
                assert(pc[e + 1 + k - i] == spec_phrase_chars(rest)[k]);
            }
        }
        lemma_tokenize_exact(s, e + 1, rest);
        assert(spec_tokenize(s, i) == Some(seq![ws[0]] + rest));
        assert(seq![ws[0]] + rest =~~= ws);
    }
}

/// The rendered letters of a well-formed word list end in a letter, so the
/// whole-phrase split never strips anything and agrees with the greedy
/// split.
pub proof fn lemma_phrase_parse_of_render(ws: Seq<Seq<Syllable>>)
    requires
        ws.len() > 0,
        forall|k: int| 0 <= k < ws.len() ==> word_wf(#[trigger] ws[k]),
    ensures
        spec_phrase_parse(spec_phrase_chars(ws)) == Some(ws),
    decreases ws.len(),
{
    let pc = spec_phrase_chars(ws);
    lemma_phrase_chars_last(ws);
    assert(pc.last() != '\n');
    assert(pc.subrange(0, pc.len() as int) =~~= pc);
    lemma_tokenize_exact(pc, 0, ws);
}

/// The last rendered letter of a well-formed word list is a letter of the
/// language.
proof fn lemma_phrase_chars_last(ws: Seq<Seq<Syllable>>)
    requires
        ws.len() > 0,
        forall|k: int| 0 <= k < ws.len() ==> word_wf(#[trigger] ws[k]),
    ensures
        spec_phrase_chars(ws).len() > 0,
        spec_consonant(spec_phrase_chars(ws).last()) || spec_vowel(spec_phrase_chars(ws).last()),
    decreases ws.len(),
{
    if ws.len() == 1 {
        lemma_word_chars_last(ws[0]);
    } else {
        let rest = ws.drop_first();
        assert(forall|k: int| 0 <= k < rest.len() ==> word_wf(#[trigger] rest[k]));
        lemma_phrase_chars_last(rest);
        assert(spec_phrase_chars(ws).last() == spec_phrase_chars(rest).last());
    }
}

/// The last letter of a nonempty well-formed word is its last syllable's
/// second letter.
proof fn lemma_word_chars_last(w: Seq<Syllable>)
    requires
        word_wf(w),
    ensures
        spec_word_chars(w).len() > 0,
        spec_word_chars(w).last() == w.last().second,
        spec_consonant(spec_word_chars(w).last()) || spec_vowel(spec_word_chars(w).last()),
    decreases w.len(),
{
    lemma_word_chars_len(w);
    if w.len() == 1 {
        assert(spec_word_chars(w) =~~= seq![w[0].first, w[0].second]);
    } else {
        assert(word_wf(w.drop_first())) by {
            assert(forall|k: int|
                0 <= k < w.drop_first().len() ==> syllable_wf(#[trigger] w.drop_first()[k]));
        }
        lemma_word_chars_last(w.drop_first());
        assert(spec_word_chars(w).last() == spec_word_chars(w.drop_first()).last());
        assert(w.drop_first().last() == w.last());
    }
}

/// The whole-phrase split: one optional trailing newline is dropped, then the/// The whole-phrase split: one optional trailing newline is dropped, then the
/// letters must tokenize completely.
pub open spec fn spec_phrase_parse(s: Seq<char>) -> Option<Seq<Seq<Syllable>>> {
    if s.len() > 0 && s.last() == '\n' {
        spec_tokenize(s.drop_last(), 0)
    } else {
        spec_tokenize(s, 0)
    }
}

/// The views of a list of words.
pub open spec fn views_of_words(ws: Seq<Word>) -> Seq<Seq<Syllable>> {
    ws.map_values(|w: Word| w@)
}

/// Reads the syllable at position `at`, when the two letters there pair a
/// consonant with a vowel.
pub fn syllable(input: &Vec<char>, at: usize) -> (r: Option<Syllable>)
    requires
        at <= input@.len(),
    ensures
        r == spec_syllable_at(input@, at as int),
{
    if input.len() - at >= 2 {
        let a: char = input[at];
        let b: char = input[at + 1];
        if (is_consonant(a) && is_vowel(b)) || (is_vowel(a) && is_consonant(b)) {
            Some(Syllable { first: a, second: b })
        } else {
            None
        }
    } else {
        None
    }
}

/// Reads the maximal word starting at `at`; returns its syllables and the
/// position right after it. The word may be empty.
pub fn word(input: &Vec<char>, at: usize) -> (r: (Word, usize))
    requires
        at <= input@.len(),
    ensures
        r.0@ == spec_word_at(input@, at as int),
        r.1 == spec_word_end(input@, at as int),
        at <= r.1 <= input@.len(),
{
    proof {
        assert(input@.take(input@.len() as int) =~= input@);
    }
    word_within(input, at, input.len())
}

/// Splits a raw phrase into its words. Returns `None` when the letters do
/// not split into space-separated syllable words (one trailing newline is
/// allowed and dropped).
pub fn phrase(input: &Vec<char>) -> (r: Option<Vec<Word>>)
    ensures
        match r {
            Some(ws) => spec_phrase_parse(input@) == Some(views_of_words(ws@)),
            None => spec_phrase_parse(input@) is None,
        },
{
    let n: usize = if input.len() > 0 && input[input.len() - 1] == '\n' {
        input.len() - 1
    } else {
        input.len()
    };
    let ghost body: Seq<char> = input@.take(n as int);
    proof {
        if input@.len() > 0 && input@.last() == '\n' {
            assert(body =~= input@.drop_last());
        } else {
            assert(body =~= input@);
        }
    }
    let mut words: Vec<Word> = Vec::new();
    let mut pos: usize = 0;
    proof {
        if let Some(rest) = spec_tokenize(body, 0) {
            assert(views_of_words(words@) + rest =~= rest);
        }
    }
    loop
        invariant
            pos <= n <= input@.len(),
            body == input@.take(n as int),
            spec_phrase_parse(input@) == match spec_tokenize(body, pos as int) {
                Some(rest) => Some(views_of_words(words@) + rest),
                None => None::<Seq<Seq<Syllable>>>,
            },
        decreases n - pos,
    {
        let (w, e) = word_within(input, pos, n);
        proof {
            lemma_word_end_bounds(body, pos as int);
        }
        if w.syllables.len() == 0 {
            return None;
        }
        if e == n {
            let ghost before: Seq<Word> = words@;
            words.push(w);
            proof {
                assert(views_of_words(words@) =~= views_of_words(before) + seq![
                    spec_word_at(body, pos as int),
                ]);
            }
            return Some(words);
        }
        if input[e] == ' ' {
            let ghost before: Seq<Word> = words@;
            let ghost wv: Seq<Syllable> = w@;
            words.push(w);
            pos = e + 1;
            proof {
                assert(body[e as int] == input@[e as int]);
                assert(views_of_words(words@) =~= views_of_words(before) + seq![wv]);
                if let Some(rest) = spec_tokenize(body, pos as int) {
                    assert((views_of_words(before) + seq![wv]) + rest =~= views_of_words(before)
                        + (seq![wv] + rest));
                }
            }
        } else {
            proof {
                assert(body[e as int] == input@[e as int]);
            }
            return None;
        }
    }
}

/// Reads the maximal word starting at `at`, looking only at the first `n`
/// letters of the input.
fn word_within(input: &Vec<char>, at: usize, n: usize) -> (r: (Word, usize))
    requires
        at <= n <= input@.len(),
    ensures
        r.0@ == spec_word_at(input@.take(n as int), at as int),
        r.1 == spec_word_end(input@.take(n as int), at as int),
        at <= r.1 <= n,
{
    let mut syllables: Vec<Syllable> = Vec::new();
    let mut j: usize = at;
    let ghost body: Seq<char> = input@.take(n as int);
    loop
        invariant
            at <= j <= n <= input@.len(),
            body == input@.take(n as int),
            spec_word_at(body, at as int) == syllables@ + spec_word_at(body, j as int),
            spec_word_end(body, at as int) == spec_word_end(body, j as int),
        decreases n - j,
    {
        let found: Option<Syllable> = if n - j >= 2 {
            let a: char = input[j];
            let b: char = input[j + 1];
            proof {
                assert(body[j as int] == input@[j as int]);
                assert(body[j + 1] == input@[j + 1]);
            }
            if (is_consonant(a) && is_vowel(b)) || (is_vowel(a) && is_consonant(b)) {
                Some(Syllable { first: a, second: b })
            } else {
                None
            }
        } else {
            None
        };
        proof {
            assert(found == spec_syllable_at(body, j as int));
        }
        match found {
            Some(sy) => {
                proof {
                    assert(syllables@ + (seq![sy] + spec_word_at(body, j + 2)) =~= (syllables@
                        + seq![sy]) + spec_word_at(body, j + 2));
                }
                syllables.push(sy);
                j = j + 2;
            },
            None => {
                proof {
                    assert(syllables@ + Seq::<Syllable>::empty() =~= syllables@);
                }
                return (Word { syllables }, j);
            },
        }
    }
}

/// A placeholder for shared conversational context beyond the lexicon;
/// empty for now.
#[derive(Debug)]
pub struct Context {}

impl Default for Context {
    /// The empty context.
    fn default() -> (r: Context) {
        Context {  }
    }
}

/// The grammatical category of a dictionary word.
#[derive(Clone, Copy, PartialEq, Eq, Structural, Debug, Hash)]
pub enum WordFunction {
    Me,
    You,
    Greeting,
    Affirmation,
    Negation,
    Pronoun,
    Action,
    Desire,
    Have,
    After,
    Before,
    And,
    Ever,
    /// Please and thank you.
    Polite,
    Question,
    // Lexical functions.
    Sandwich,
    Number,
    /// Has some meaning beyond function.
    Ingredient,
}

/// Analogous to part of speech.
#[derive(Clone, Copy, PartialEq, Eq, Structural, Debug, Hash)]
pub enum WordRole {
    // Functional roles.
    /// Things like greetings, affirmations, etc.
    Special,
    // Lexical roles.
    /// To want, to prepend, to append, etc.
    Verb,
    /// Ingredients and pronouns.
    Noun,
    Adjective,
    Adverb,
    /// *Between* x and y.
    Preposition,
    /// x *and* y.
    NounConjunction,
}

/// The meaning of one dictionary word.
#[derive(Debug)]
pub struct DictionaryEntry {
    pub function: WordFunction,
    pub role: WordRole,
    pub definition: String,
}

/// The mathematical content of a dictionary entry.
pub ghost struct EntryModel {
    pub function: WordFunction,
    pub role: WordRole,
    pub definition: Seq<char>,
}

impl View for DictionaryEntry {
    type V = EntryModel;

    open spec fn view(&self) -> EntryModel {
        EntryModel { function: self.function, role: self.role, definition: self.definition@ }
    }
}

impl Clone for DictionaryEntry {
    fn clone(&self) -> (r: Self)
        ensures
            r@ == self@,
    {
        DictionaryEntry {
            function: self.function,
            role: self.role,
            definition: self.definition.clone(),
        }
    }
}

/// A word after lexical lookup: the surface word plus the role and entry the
/// agent assigned to it, if any.
#[derive(Debug)]
pub struct AnnotatedWord {
    pub word: Word,
    /// Part of speech based on syntactic context.
    pub role: Option<WordRole>,
    pub entry: Option<DictionaryEntry>,
}

/// The mathematical content of an annotated word.
pub ghost struct AnnotatedWordModel {
    pub word: Seq<Syllable>,
    pub role: Option<WordRole>,
    pub entry: Option<EntryModel>,
}

impl View for AnnotatedWord {
    type V = AnnotatedWordModel;

    open spec fn view(&self) -> AnnotatedWordModel {
        AnnotatedWordModel {
            word: self.word@,
            role: self.role,
            entry: match self.entry {
                Some(e) => Some(e@),
                None => None,
            },
        }
    }
}

impl Clone for AnnotatedWord {
    fn clone(&self) -> (r: Self)
        ensures
            r@ == self@,
    {
        AnnotatedWord {
            word: self.word.clone(),
            role: self.role,
            entry: match &self.entry {
                Some(e) => Some(e.clone()),
                None => None,
            },
        }
    }
}

impl AnnotatedWord {
    /// The grammatical category this word was read as, if it was recognized.
    pub fn definition(&self) -> (r: Option<WordFunction>)
        ensures
            r == spec_definition(self@),
    {
        match &self.entry {
            Some(e) => Some(e.function),
            None => None,
        }
    }
}

/// The grammatical category of an annotated word, if it was recognized.
pub open spec fn spec_definition(w: AnnotatedWordModel) -> Option<WordFunction> {
    match w.entry {
        Some(e) => Some(e.function),
        None => None,
    }
}

/// The views of a list of annotated words.
pub open spec fn views_of_annotated(ws: Seq<AnnotatedWord>) -> Seq<AnnotatedWordModel> {
    ws.map_values(|w: AnnotatedWord| w@)
}

/// The numeric value of a decimal digit, or `-1` for any other letter.
pub open spec fn spec_digit_val(c: char) -> int {
    if c == '0' {
        0
    } else if c == '1' {
        1
    } else if c == '2' {
        2
    } else if c == '3' {
        3
    } else if c == '4' {
        4
    } else if c == '5' {
        5
    } else if c == '6' {
        6
    } else if c == '7' {
        7
    } else if c == '8' {
        8
    } else if c == '9' {
        9
    } else {
        -1
    }
}

/// Whether the letters form a nonempty run of decimal digits.
pub open spec fn spec_digits_ok(s: Seq<char>) -> bool {
    s.len() > 0 && forall|i: int| 0 <= i < s.len() ==> spec_digit_val(s[i]) >= 0
}

/// The value of a digit run, most significant digit first.
pub open spec fn spec_digits_val(s: Seq<char>) -> int
    decreases s.len(),
{
    if s.len() == 0 {
        0
    } else {
        spec_digits_val(s.drop_last()) * 10 + spec_digit_val(s.last())
    }
}

/// The number a gloss denotes: defined exactly for nonempty digit runs whose
/// value fits the number word's range.
pub open spec fn spec_number(s: Seq<char>) -> Option<u32> {
    if spec_digits_ok(s) && spec_digits_val(s) <= u32::MAX {
        Some(spec_digits_val(s) as u32)
    } else {
        None
    }
}

/// The numeric value of one decimal digit letter.
fn digit_of(c: char) -> (r: Option<u32>)
    ensures
        match r {
            Some(d) => spec_digit_val(c) == d,
            None => spec_digit_val(c) == -1,
        },
{
    match c {
        '0' => Some(0),
        '1' => Some(1),
        '2' => Some(2),
        '3' => Some(3),
        '4' => Some(4),
        '5' => Some(5),
        '6' => Some(6),
        '7' => Some(7),
        '8' => Some(8),
        '9' => Some(9),
        _ => None,
    }
}

proof fn lemma_digits_val_nonneg(s: Seq<char>)
    requires
        forall|i: int| 0 <= i < s.len() ==> spec_digit_val(s[i]) >= 0,
    ensures
        spec_digits_val(s) >= 0,
    decreases s.len(),
{
    if s.len() > 0 {
        assert(forall|i: int|
            0 <= i < s.len() - 1 ==> spec_digit_val(s.drop_last()[i]) >= 0);
        lemma_digits_val_nonneg(s.drop_last());
    }
}

proof fn lemma_digits_val_monotone(s: Seq<char>, k: int)
    requires
        0 <= k <= s.len(),
        forall|i: int| 0 <= i < s.len() ==> spec_digit_val(s[i]) >= 0,
    ensures
        spec_digits_val(s.take(k)) <= spec_digits_val(s),
    decreases s.len() - k,
{
    if k < s.len() {
        lemma_digits_val_monotone(s, k + 1);
        assert(s.take(k + 1).drop_last() =~= s.take(k));
        assert(forall|i: int| 0 <= i < k ==> spec_digit_val(s.take(k)[i]) >= 0);
        lemma_digits_val_nonneg(s.take(k));
        assert(spec_digits_val(s.take(k + 1)) == spec_digits_val(s.take(k)) * 10 + spec_digit_val(
            s[k],
        ));
        assert(spec_digits_val(s.take(k)) * 10 >= spec_digits_val(s.take(k)));
    } else {
        assert(s.take(k) =~= s);
    }
}

/// Reads a nonempty run of decimal digits as a number. Returns `None` on an
/// empty run, a stray letter, or a value out of range.
pub fn parse_number(cs: &Vec<char>) -> (r: Option<u32>)
    ensures
        r == spec_number(cs@),
{
    if cs.len() == 0 {
        return None;
    }
    let mut acc: u32 = 0;
    let mut i: usize = 0;
    proof {
        assert(cs@.take(0) =~= Seq::<char>::empty());
    }
    while i < cs.len()
        invariant
            i <= cs@.len(),
            acc == spec_digits_val(cs@.take(i as int)),
            forall|k: int| 0 <= k < i ==> spec_digit_val(cs@[k]) >= 0,
        decreases cs@.len() - i,
    {
        let c: char = cs[i];
        proof {
            assert(cs@.take(i + 1).drop_last() =~= cs@.take(i as int));
            assert(cs@.take(i + 1).last() == cs@[i as int]);
        }
        match digit_of(c) {
            Some(d) => {
                let wide: u64 = acc as u64 * 10 + d as u64;
                if wide > u32::MAX as u64 {
                    proof {
                        if spec_digits_ok(cs@) {
                            lemma_digits_val_monotone(cs@, i + 1);
                        }
                    }
                    return None;
                }
                acc = wide as u32;
                i = i + 1;
            },
            None => {
                return None;
            },
        }
    }
    proof {
        assert(cs@.take(cs@.len() as int) =~= cs@);
    }
    Some(acc)
}

/// The lexicon: surface words and their entries, in a fixed order, plus the
/// ingredient taxonomy. Lookups return the first match, so selection among
/// entries sharing a function is deterministic.
#[derive(Debug)]
pub struct Dictionary {
    /// The stored word list, searched in order.
    pub words: Vec<(Word, DictionaryEntry)>,
    pub ingredients: Ingredient,
}

/// The mathematical content of the word list.
pub open spec fn spec_word_list(ws: Seq<(Word, DictionaryEntry)>) -> Seq<
    (Seq<Syllable>, EntryModel),
> {
    ws.map_values(|p: (Word, DictionaryEntry)| (p.0@, p.1@))
}

/// The entries a taxonomy contributes: one noun entry per leaf, under the
/// leaf's surface word, glossed with the leaf's name.
pub open spec fn spec_leaf_entries(i: Ingredient) -> Seq<(Seq<Syllable>, EntryModel)> {
    spec_leaves(i).map_values(
        |p: (Seq<char>, Seq<Syllable>)|
            (
                p.1,
                EntryModel {
                    function: WordFunction::Ingredient,
                    role: WordRole::Noun,
                    definition: p.0,
                },
            ),
    )
}

/// The first entry stored under the given word.
pub open spec fn spec_lookup(es: Seq<(Seq<Syllable>, EntryModel)>, w: Seq<Syllable>) -> Option<
    EntryModel,
>
    decreases es.len(),
{
    if es.len() == 0 {
        None
    } else if es[0].0 == w {
        Some(es[0].1)
    } else {
        spec_lookup(es.drop_first(), w)
    }
}

/// The first word stored with the given grammatical category.
pub open spec fn spec_find_def(es: Seq<(Seq<Syllable>, EntryModel)>, f: WordFunction) -> Option<
    (Seq<Syllable>, EntryModel),
>
    decreases es.len(),
{
    if es.len() == 0 {
        None
    } else if es[0].1.function == f {
        Some(es[0])
    } else {
        spec_find_def(es.drop_first(), f)
    }
}

/// The first number word whose gloss denotes the given number.
pub open spec fn spec_find_num(es: Seq<(Seq<Syllable>, EntryModel)>, n: u32) -> Option<
    (Seq<Syllable>, EntryModel),
>
    decreases es.len(),
{
    if es.len() == 0 {
        None
    } else if es[0].1.function == WordFunction::Number && spec_number(es[0].1.definition) == Some(
        n,
    ) {
        Some(es[0])
    } else {
        spec_find_num(es.drop_first(), n)
    }
}

/// Whether the lexicon's surface words are pairwise distinct, so a lookup
/// finds exactly the stored entry.
pub open spec fn spec_keys_distinct(es: Seq<(Seq<Syllable>, EntryModel)>) -> bool {
    forall|j: int, k: int| 0 <= j < k < es.len() ==> (#[trigger] es[j]).0 != (#[trigger] es[k]).0
}

/// With distinct surface words, looking a stored word up finds its own
/// entry.
pub proof fn lemma_lookup_member(es: Seq<(Seq<Syllable>, EntryModel)>, k: int)
    requires
        spec_keys_distinct(es),
        0 <= k < es.len(),
    ensures
        spec_lookup(es, es[k].0) == Some(es[k].1),
    decreases k,
{
    if k > 0 {
        assert(es[0].0 != es[k].0);
        assert(spec_keys_distinct(es.drop_first())) by {
            assert(forall|a: int, b: int|
                0 <= a < b < es.drop_first().len() ==> (#[trigger] es.drop_first()[a]).0 != (
                #[trigger] es.drop_first()[b]).0);
        }
        lemma_lookup_member(es.drop_first(), k - 1);
        assert(es.drop_first()[k - 1] == es[k]);
    }
}

/// The annotation one word receives from the lexicon: its first entry's role/// The annotation one word receives from the lexicon: its first entry's role
/// and meaning, or nothing for an out-of-vocabulary word.
pub open spec fn spec_annotated(es: Seq<(Seq<Syllable>, EntryModel)>, w: Seq<Syllable>) -> AnnotatedWordModel {
    match spec_lookup(es, w) {
        Some(e) => AnnotatedWordModel { word: w, role: Some(e.role), entry: Some(e) },
        None => AnnotatedWordModel { word: w, role: None, entry: None },
    }
}

impl Dictionary {
    /// The dictionary's entries, first match winning.
    pub open spec fn spec_entries(&self) -> Seq<(Seq<Syllable>, EntryModel)> {
        spec_word_list(self.words@)
    }

    /// Builds the lexicon from a word list and the ingredient taxonomy: the
    /// list is extended with one noun entry per taxonomy leaf.
    pub fn new(words: Vec<(Word, DictionaryEntry)>, ingredients: Ingredient) -> (r: Dictionary)
        ensures
            r.spec_entries() == spec_word_list(words@) + spec_leaf_entries(ingredients),
            r.ingredients == ingredients,
    {
        let ghost given: Seq<(Word, DictionaryEntry)> = words@;
        let mut words: Vec<(Word, DictionaryEntry)> = words;
        let lv: Vec<(String, Word)> = ingredients.leaves();
        let ghost lvv: Seq<(Seq<char>, Seq<Syllable>)> = spec_leaves(ingredients);
        let mut j: usize = 0;
        proof {
            assert(spec_word_list(words@) =~~= spec_word_list(given) + spec_leaf_entries(
                ingredients,
            ).take(0));
        }
        while j < lv.len()
            invariant
                j <= lv@.len(),
                spec_pairs_len(lv@) == lvv.len(),
                lvv == crate::sandwich::spec_pairs_view(lv@),
                lvv == spec_leaves(ingredients),
                spec_word_list(words@) == spec_word_list(given) + spec_leaf_entries(
                    ingredients,
                ).take(j as int),
            decreases lv@.len() - j,
        {
            let p: &(String, Word) = &lv[j];
            let pw: Word = p.1.clone();
            let entry: DictionaryEntry = DictionaryEntry {
                function: WordFunction::Ingredient,
                role: WordRole::Noun,
                definition: p.0.clone(),
            };
            let ghost pp: (Word, DictionaryEntry) = (pw, entry);
            let ghost before: Seq<(Word, DictionaryEntry)> = words@;
            words.push((pw, entry));
            proof {
                let es_new = spec_word_list(words@);
                let target = spec_word_list(given) + spec_leaf_entries(ingredients).take(j + 1);
                assert(spec_word_list(before).len() == before.len());
                assert(spec_word_list(given).len() == given.len());
                assert(spec_leaf_entries(ingredients).len() == lvv.len());
                assert(before.len() == given.len() + j);
                assert(words@ == before.push(pp));
                assert(lvv[j as int] == (lv@[j as int].0@, lv@[j as int].1@));
                assert(spec_leaf_entries(ingredients)[j as int] == (
                    lvv[j as int].1,
                    EntryModel {
                        function: WordFunction::Ingredient,
                        role: WordRole::Noun,
                        definition: lvv[j as int].0,
                    },
                ));
                assert((pp.0@, pp.1@) == spec_leaf_entries(ingredients)[j as int]);
                assert forall|x: int| 0 <= x < es_new.len() implies es_new[x] == target[x] by {
                    assert(es_new[x] == (words@[x].0@, words@[x].1@));
                    if x < before.len() {
                        assert(before.push(pp)[x] == before[x]);
                        assert(spec_word_list(before)[x] == (before[x].0@, before[x].1@));
                    } else {
                        assert(before.push(pp)[x] == pp);
                    }
                }
                assert(es_new =~~= target);
            }
            j = j + 1;
        }
        proof {
            assert(spec_leaf_entries(ingredients).take(lvv.len() as int) =~~= spec_leaf_entries(
                ingredients,
            ));
        }
        Dictionary { words, ingredients }
    }

    /// The first entry stored under the given word, if any.
    pub fn get(&self, word: &Word) -> (r: Option<&DictionaryEntry>)
        ensures
            match r {
                Some(e) => spec_lookup(self.spec_entries(), word@) == Some(e@),
                None => spec_lookup(self.spec_entries(), word@) is None,
            },
    {
        let mut i: usize = 0;
        proof {
            assert(self.spec_entries().skip(0) =~~= self.spec_entries());
        }
        while i < self.words.len()
            invariant
                i <= self.words@.len(),
                self.spec_entries().len() == self.words@.len(),
                spec_lookup(self.spec_entries(), word@) == spec_lookup(
                    self.spec_entries().skip(i as int),
                    word@,
                ),
            decreases self.words@.len() - i,
        {
            proof {
                assert(self.spec_entries().skip(i as int)[0] == self.spec_entries()[i as int]);
                assert(self.spec_entries().skip(i as int).drop_first() =~~= self.spec_entries().skip(
                    i + 1,
                ));
            }
            if self.words[i].0.same(word) {
                return Some(&self.words[i].1);
            }
            i = i + 1;
        }
        None
    }

    /// The first word carrying the given grammatical category, with its
    /// entry; `None` when the category has no word. Selection is by list
    /// order, so it is deterministic.
    pub fn word_for_def(&self, category: WordFunction) -> (r: Option<(&Word, &DictionaryEntry)>)
        ensures
            match r {
                Some(p) => spec_find_def(self.spec_entries(), category) == Some((p.0@, p.1@)) && (
                spec_keys_distinct(self.spec_entries()) ==> spec_lookup(
                    self.spec_entries(),
                    p.0@,
                ) == Some(p.1@)),
                None => spec_find_def(self.spec_entries(), category) is None,
            },
    {
        let mut i: usize = 0;
        proof {
            assert(self.spec_entries().skip(0) =~~= self.spec_entries());
        }
        while i < self.words.len()
            invariant
                i <= self.words@.len(),
                self.spec_entries().len() == self.words@.len(),
                spec_find_def(self.spec_entries(), category) == spec_find_def(
                    self.spec_entries().skip(i as int),
                    category,
                ),
            decreases self.words@.len() - i,
        {
            proof {
                assert(self.spec_entries().skip(i as int)[0] == self.spec_entries()[i as int]);
                assert(self.spec_entries().skip(i as int).drop_first() =~~= self.spec_entries().skip(
                    i + 1,
                ));
            }
            if self.words[i].1.function == category {
                proof {
                    if spec_keys_distinct(self.spec_entries()) {
                        lemma_lookup_member(self.spec_entries(), i as int);
                    }
                }
                return Some((&self.words[i].0, &self.words[i].1));
            }
            i = i + 1;
        }
        None
    }

    /// The first word denoting the given number, with its entry; `None`
    /// when the lexicon has no word for it.
    pub fn word_for_num(&self, number: u32) -> (r: Option<(&Word, &DictionaryEntry)>)
        ensures
            match r {
                Some(p) => spec_find_num(self.spec_entries(), number) == Some((p.0@, p.1@)) && (
                spec_keys_distinct(self.spec_entries()) ==> spec_lookup(
                    self.spec_entries(),
                    p.0@,
                ) == Some(p.1@)),
                None => spec_find_num(self.spec_entries(), number) is None,
            },
    {
        let mut i: usize = 0;
        proof {
            assert(self.spec_entries().skip(0) =~~= self.spec_entries());
        }
        while i < self.words.len()
            invariant
                i <= self.words@.len(),
                self.spec_entries().len() == self.words@.len(),
                spec_find_num(self.spec_entries(), number) == spec_find_num(
                    self.spec_entries().skip(i as int),
                    number,
                ),
            decreases self.words@.len() - i,
        {
            proof {
                assert(self.spec_entries().skip(i as int)[0] == self.spec_entries()[i as int]);
                assert(self.spec_entries().skip(i as int).drop_first() =~~= self.spec_entries().skip(
                    i + 1,
                ));
            }
            if self.words[i].1.function == WordFunction::Number {
                let digits: Vec<char> = chars_of(self.words[i].1.definition.as_str());
                match parse_number(&digits) {
                    Some(v) => {
                        if v == number {
                            proof {
                                if spec_keys_distinct(self.spec_entries()) {
                                    lemma_lookup_member(self.spec_entries(), i as int);
                                }
                            }
                            return Some((&self.words[i].0, &self.words[i].1));
                        }
                    },
                    None => {},
                }
            }
            i = i + 1;
        }
        None
    }

    /// The first word carrying the given category, already annotated with
    /// its own entry; `None` when the category has no word.
    pub fn annotated_word_for_def(&self, category: WordFunction) -> (r: Option<AnnotatedWord>)
        ensures
            match r {
                Some(aw) => spec_find_def(self.spec_entries(), category) == Some(
                    (aw@.word, aw@.entry->Some_0),
                ) && aw@.role == Some(aw@.entry->Some_0.role) && aw@.entry is Some,
                None => spec_find_def(self.spec_entries(), category) is None,
            },
    {
        match self.word_for_def(category) {
            Some((w, e)) => Some(
                AnnotatedWord { word: w.clone(), role: Some(e.role), entry: Some(e.clone()) },
            ),
            None => None,
        }
    }

    /// The first word denoting the given number, already annotated with its
    /// own entry; `None` when the lexicon has no word for it.
    pub fn annotated_word_for_num(&self, number: u32) -> (r: Option<AnnotatedWord>)
        ensures
            match r {
                Some(aw) => spec_find_num(self.spec_entries(), number) == Some(
                    (aw@.word, aw@.entry->Some_0),
                ) && aw@.role == Some(aw@.entry->Some_0.role) && aw@.entry is Some,
                None => spec_find_num(self.spec_entries(), number) is None,
            },
    {
        match self.word_for_num(number) {
            Some((w, e)) => Some(
                AnnotatedWord { word: w.clone(), role: Some(e.role), entry: Some(e.clone()) },
            ),
            None => None,
        }
    }
}

/// The number of named words in a list.
pub open spec fn spec_pairs_len(s: Seq<(String, Word)>) -> int {
    crate::sandwich::spec_pairs_view(s).len() as int
}

/// Annotates each word of a phrase through the lexicon: known words carry
/// their first entry, unknown words stay bare.
pub fn annotate(phrase: Vec<Word>, dictionary: &Dictionary) -> (r: Vec<AnnotatedWord>)
    ensures
        r@.len() == phrase@.len(),
        forall|k: int|
            0 <= k < r@.len() ==> (#[trigger] r@[k])@ == spec_annotated(
                dictionary.spec_entries(),
                phrase@[k]@,
            ),
{
    let mut result: Vec<AnnotatedWord> = Vec::new();
    let mut i: usize = 0;
    while i < phrase.len()
        invariant
            i <= phrase@.len(),
            spec_annotation_prefix(result@, phrase@, dictionary.spec_entries(), i as int),
        decreases phrase@.len() - i,
    {
        let w: &Word = &phrase[i];
        let aw: AnnotatedWord = match dictionary.get(w) {
            Some(e) => AnnotatedWord { word: w.clone(), role: Some(e.role), entry: Some(e.clone()) },
            None => AnnotatedWord { word: w.clone(), role: None, entry: None },
        };
        result.push(aw);
        i = i + 1;
    }
    result
}

/// The prefix of an annotation run: each produced word is the lexicon's
/// annotation of the corresponding input word.
pub open spec fn spec_annotation_prefix(
    out: Seq<AnnotatedWord>,
    input: Seq<Word>,
    es: Seq<(Seq<Syllable>, EntryModel)>,
    upto: int,
) -> bool {
    out.len() == upto && 0 <= upto <= input.len() && forall|k: int|
        0 <= k < upto ==> (#[trigger] out[k])@ == spec_annotated(es, input[k]@)
}

/// A parsed syntax tree: phrases over annotated words. The negotiation
/// engine works on operations directly; this tree serves display and
/// inspection.
#[derive(Debug)]
pub enum PhraseNode {
    NounPhrase(Vec<PhraseNode>),
    VerbPhrase(Vec<PhraseNode>),
    ClausalPhrase(Vec<PhraseNode>),
    Noun(AnnotatedWord),
    Verb(AnnotatedWord),
    Position(AnnotatedWord),
    PositionalPhrase(Vec<PhraseNode>),
    Empty,
}

/// The children of a phrase node; words and the empty node have none.
pub open spec fn spec_phrase_children(n: PhraseNode) -> Seq<PhraseNode> {
    match n {
        PhraseNode::NounPhrase(v) => v@,
        PhraseNode::VerbPhrase(v) => v@,
        PhraseNode::ClausalPhrase(v) => v@,
        PhraseNode::PositionalPhrase(v) => v@,
        _ => Seq::empty(),
    }
}

/// The first verb word in the tree, depth first.
pub open spec fn spec_main_verb(n: PhraseNode) -> Option<AnnotatedWord>
    decreases n, 1int, 0int,
{
    match n {
        PhraseNode::Verb(x) => Some(x),
        PhraseNode::NounPhrase(_) | PhraseNode::VerbPhrase(_) | PhraseNode::ClausalPhrase(_)
            | PhraseNode::PositionalPhrase(_) => spec_main_verb_from(n, 0),
        _ => None,
    }
}

/// The verb search over the children, from child `k` on.
pub open spec fn spec_main_verb_from(n: PhraseNode, k: int) -> Option<AnnotatedWord>
    decreases n, 0int, spec_phrase_children(n).len() - k,
{
    if k < 0 || k >= spec_phrase_children(n).len() {
        None
    } else {
        match spec_main_verb(spec_phrase_children(n)[k]) {
            Some(x) => Some(x),
            None => spec_main_verb_from(n, k + 1),
        }
    }
}

/// The first noun word in the tree, depth first; in a clause only the verb
/// phrase is searched, since subjects sit outside.
pub open spec fn spec_object(n: PhraseNode) -> Option<AnnotatedWord>
    decreases n, 1int, 0int,
{
    match n {
        PhraseNode::Noun(x) => Some(x),
        PhraseNode::VerbPhrase(_) | PhraseNode::NounPhrase(_)
            | PhraseNode::PositionalPhrase(_) => spec_object_from(n, 0, false),
        PhraseNode::ClausalPhrase(_) => spec_object_from(n, 0, true),
        _ => None,
    }
}

/// The object search over the children; in a clause, only verb-phrase
/// children count.
pub open spec fn spec_object_from(n: PhraseNode, k: int, clause: bool) -> Option<AnnotatedWord>
    decreases n, 0int, spec_phrase_children(n).len() - k,
{
    if k < 0 || k >= spec_phrase_children(n).len() {
        None
    } else {
        let child = spec_phrase_children(n)[k];
        let hit = if clause {
            match child {
                PhraseNode::VerbPhrase(_) => spec_object(child),
                _ => None,
            }
        } else {
            spec_object(child)
        };
        match hit {
            Some(x) => Some(x),
            None => spec_object_from(n, k + 1, clause),
        }
    }
}

/// The first position word in the tree, depth first.
pub open spec fn spec_pos_word(n: PhraseNode) -> Option<AnnotatedWord>
    decreases n, 1int, 0int,
{
    match n {
        PhraseNode::Position(x) => Some(x),
        PhraseNode::NounPhrase(_) | PhraseNode::VerbPhrase(_) | PhraseNode::ClausalPhrase(_)
            | PhraseNode::PositionalPhrase(_) => spec_pos_word_from(n, 0),
        _ => None,
    }
}

/// The position search over the children, from child `k` on.
pub open spec fn spec_pos_word_from(n: PhraseNode, k: int) -> Option<AnnotatedWord>
    decreases n, 0int, spec_phrase_children(n).len() - k,
{
    if k < 0 || k >= spec_phrase_children(n).len() {
        None
    } else {
        match spec_pos_word(spec_phrase_children(n)[k]) {
            Some(x) => Some(x),
            None => spec_pos_word_from(n, k + 1),
        }
    }
}

/// The outermost verb phrase, depth first.
pub open spec fn spec_main_verb_phrase(n: PhraseNode) -> Option<PhraseNode>
    decreases n, 1int, 0int,
{
    match n {
        PhraseNode::VerbPhrase(_) => Some(n),
        PhraseNode::NounPhrase(_) | PhraseNode::ClausalPhrase(_)
            | PhraseNode::PositionalPhrase(_) => spec_main_verb_phrase_from(n, 0),
        _ => None,
    }
}

/// The verb-phrase search over the children, from child `k` on.
pub open spec fn spec_main_verb_phrase_from(n: PhraseNode, k: int) -> Option<PhraseNode>
    decreases n, 0int, spec_phrase_children(n).len() - k,
{
    if k < 0 || k >= spec_phrase_children(n).len() {
        None
    } else {
        match spec_main_verb_phrase(spec_phrase_children(n)[k]) {
            Some(x) => Some(x),
            None => spec_main_verb_phrase_from(n, k + 1),
        }
    }
}

/// The phrase holding the object, found through a clause's verb phrase.
pub open spec fn spec_object_phrase(n: PhraseNode) -> Option<PhraseNode>
    decreases n, 1int, 0int,
{
    match n {
        PhraseNode::NounPhrase(_) | PhraseNode::PositionalPhrase(_) => Some(n),
        PhraseNode::VerbPhrase(_) => spec_object_phrase_from(n, 0, false),
        PhraseNode::ClausalPhrase(_) => spec_object_phrase_from(n, 0, true),
        _ => None,
    }
}

/// The object-phrase search over the children; in a clause, only
/// verb-phrase children count.
pub open spec fn spec_object_phrase_from(n: PhraseNode, k: int, clause: bool) -> Option<
    PhraseNode,
>
    decreases n, 0int, spec_phrase_children(n).len() - k,
{
    if k < 0 || k >= spec_phrase_children(n).len() {
        None
    } else {
        let child = spec_phrase_children(n)[k];
        let hit = if clause {
            match child {
                PhraseNode::VerbPhrase(_) => spec_object_phrase(child),
                _ => None,
            }
        } else {
            spec_object_phrase(child)
        };
        match hit {
            Some(x) => Some(x),
            None => spec_object_phrase_from(n, k + 1, clause),
        }
    }
}

/// The subject noun, found through a clause's noun phrases.
pub open spec fn spec_subject(n: PhraseNode) -> Option<AnnotatedWord>
    decreases n, 1int, 0int,
{
    match n {
        PhraseNode::Noun(x) => Some(x),
        PhraseNode::NounPhrase(_) => spec_subject_from(n, 0, false),
        PhraseNode::ClausalPhrase(_) => spec_subject_from(n, 0, true),
        _ => None,
    }
}

/// The subject search over the children; in a clause, only noun-phrase
/// children count.
pub open spec fn spec_subject_from(n: PhraseNode, k: int, clause: bool) -> Option<AnnotatedWord>
    decreases n, 0int, spec_phrase_children(n).len() - k,
{
    if k < 0 || k >= spec_phrase_children(n).len() {
        None
    } else {
        let child = spec_phrase_children(n)[k];
        let hit = if clause {
            match child {
                PhraseNode::NounPhrase(_) => spec_subject(child),
                _ => None,
            }
        } else {
            spec_subject(child)
        };
        match hit {
            Some(x) => Some(x),
            None => spec_subject_from(n, k + 1, clause),
        }
    }
}

impl PhraseNode {
    /// The first verb word in the tree, depth first.
    pub fn main_verb(&self) -> (r: Option<&AnnotatedWord>)
        ensures
            match r {
                Some(aw) => spec_main_verb(*self) == Some(*aw),
                None => spec_main_verb(*self) is None,
            },
        decreases *self,
    {
        match self {
            PhraseNode::Verb(x) => Some(x),
            PhraseNode::NounPhrase(v) | PhraseNode::VerbPhrase(v) | PhraseNode::ClausalPhrase(v)
                | PhraseNode::PositionalPhrase(v) => {
                let mut k: usize = 0;
                while k < v.len()
                    invariant
                        k <= v@.len(),
                        v@ == spec_phrase_children(*self),
                        self is NounPhrase || self is VerbPhrase || self is ClausalPhrase
                            || self is PositionalPhrase,
                        spec_main_verb_from(*self, 0) == spec_main_verb_from(*self, k as int),
                    decreases v@.len() - k,
                {
                    proof {
                        assert(decreases_to!(*self => v@[k as int]));
                    }
                    let found: Option<&AnnotatedWord> = v[k].main_verb();
                    match found {
                        Some(aw) => {
                            return Some(aw);
                        },
                        None => {},
                    }
                    k = k + 1;
                }
                None
            },
            _ => None,
        }
    }

    /// The first noun word in the tree, depth first; in a clause only the
    /// verb phrase is searched.
    pub fn object(&self) -> (r: Option<&AnnotatedWord>)
        ensures
            match r {
                Some(aw) => spec_object(*self) == Some(*aw),
                None => spec_object(*self) is None,
            },
        decreases *self,
    {
        match self {
            PhraseNode::Noun(x) => Some(x),
            PhraseNode::NounPhrase(v) | PhraseNode::VerbPhrase(v)
                | PhraseNode::PositionalPhrase(v) => {
                let mut k: usize = 0;
                while k < v.len()
                    invariant
                        k <= v@.len(),
                        v@ == spec_phrase_children(*self),
                        self is NounPhrase || self is VerbPhrase || self is PositionalPhrase,
                        spec_object_from(*self, 0, false) == spec_object_from(
                            *self,
                            k as int,
                            false,
                        ),
                    decreases v@.len() - k,
                {
                    proof {
                        assert(decreases_to!(*self => v@[k as int]));
                    }
                    let found: Option<&AnnotatedWord> = v[k].object();
                    match found {
                        Some(aw) => {
                            return Some(aw);
                        },
                        None => {},
                    }
                    k = k + 1;
                }
                None
            },
            PhraseNode::ClausalPhrase(v) => {
                let mut k: usize = 0;
                while k < v.len()
                    invariant
                        k <= v@.len(),
                        v@ == spec_phrase_children(*self),
                        self is ClausalPhrase,
                        spec_object_from(*self, 0, true) == spec_object_from(
                            *self,
                            k as int,
                            true,
                        ),
                    decreases v@.len() - k,
                {
                    proof {
                        assert(decreases_to!(*self => v@[k as int]));
                    }
                    let is_vp: bool = match &v[k] {
                        PhraseNode::VerbPhrase(_) => true,
                        _ => false,
                    };
                    if is_vp {
                        let found: Option<&AnnotatedWord> = v[k].object();
                        match found {
                            Some(aw) => {
                                return Some(aw);
                            },
                            None => {},
                        }
                    }
                    k = k + 1;
                }
                None
            },
            _ => None,
        }
    }

    /// The outermost verb phrase, depth first.
    pub fn main_verb_phrase(&self) -> (r: Option<&PhraseNode>)
        ensures
            match r {
                Some(p) => spec_main_verb_phrase(*self) == Some(*p),
                None => spec_main_verb_phrase(*self) is None,
            },
        decreases *self,
    {
        match self {
            PhraseNode::VerbPhrase(_) => Some(self),
            PhraseNode::NounPhrase(v) | PhraseNode::ClausalPhrase(v)
                | PhraseNode::PositionalPhrase(v) => {
                let mut k: usize = 0;
                while k < v.len()
                    invariant
                        k <= v@.len(),
                        v@ == spec_phrase_children(*self),
                        self is NounPhrase || self is ClausalPhrase || self is PositionalPhrase,
                        spec_main_verb_phrase_from(*self, 0) == spec_main_verb_phrase_from(
                            *self,
                            k as int,
                        ),
                    decreases v@.len() - k,
                {
                    proof {
                        assert(decreases_to!(*self => v@[k as int]));
                    }
                    let found: Option<&PhraseNode> = v[k].main_verb_phrase();
                    match found {
                        Some(p) => {
                            return Some(p);
                        },
                        None => {},
                    }
                    k = k + 1;
                }
                None
            },
            _ => None,
        }
    }

    /// The phrase holding the object: a noun or positional phrase, found
    /// through the verb phrase of a clause.
    pub fn object_phrase(&self) -> (r: Option<&PhraseNode>)
        ensures
            match r {
                Some(p) => spec_object_phrase(*self) == Some(*p),
                None => spec_object_phrase(*self) is None,
            },
        decreases *self,
    {
        match self {
            PhraseNode::NounPhrase(_) | PhraseNode::PositionalPhrase(_) => Some(self),
            PhraseNode::VerbPhrase(v) => {
                let mut k: usize = 0;
                while k < v.len()
                    invariant
                        k <= v@.len(),
                        v@ == spec_phrase_children(*self),
                        self is VerbPhrase,
                        spec_object_phrase_from(*self, 0, false) == spec_object_phrase_from(
                            *self,
                            k as int,
                            false,
                        ),
                    decreases v@.len() - k,
                {
                    proof {
                        assert(decreases_to!(*self => v@[k as int]));
                    }
                    let found: Option<&PhraseNode> = v[k].object_phrase();
                    match found {
                        Some(p) => {
                            return Some(p);
                        },
                        None => {},
                    }
                    k = k + 1;
                }
                None
            },
            PhraseNode::ClausalPhrase(v) => {
                let mut k: usize = 0;
                while k < v.len()
                    invariant
                        k <= v@.len(),
                        v@ == spec_phrase_children(*self),
                        self is ClausalPhrase,
                        spec_object_phrase_from(*self, 0, true) == spec_object_phrase_from(
                            *self,
                            k as int,
                            true,
                        ),
                    decreases v@.len() - k,
                {
                    proof {
                        assert(decreases_to!(*self => v@[k as int]));
                    }
                    let is_vp: bool = match &v[k] {
                        PhraseNode::VerbPhrase(_) => true,
                        _ => false,
                    };
                    if is_vp {
                        let found: Option<&PhraseNode> = v[k].object_phrase();
                        match found {
                            Some(p) => {
                                return Some(p);
                            },
                            None => {},
                        }
                    }
                    k = k + 1;
                }
                None
            },
            _ => None,
        }
    }

    /// The subject noun: found outside the verb phrase, through the noun
    /// phrases of a clause.
    pub fn subject(&self) -> (r: Option<&AnnotatedWord>)
        ensures
            match r {
                Some(aw) => spec_subject(*self) == Some(*aw),
                None => spec_subject(*self) is None,
            },
        decreases *self,
    {
        match self {
            PhraseNode::Noun(x) => Some(x),
            PhraseNode::NounPhrase(v) => {
                let mut k: usize = 0;
                while k < v.len()
                    invariant
                        k <= v@.len(),
                        v@ == spec_phrase_children(*self),
                        self is NounPhrase,
                        spec_subject_from(*self, 0, false) == spec_subject_from(
                            *self,
                            k as int,
                            false,
                        ),
                    decreases v@.len() - k,
                {
                    proof {
                        assert(decreases_to!(*self => v@[k as int]));
                    }
                    let found: Option<&AnnotatedWord> = v[k].subject();
                    match found {
                        Some(aw) => {
                            return Some(aw);
                        },
                        None => {},
                    }
                    k = k + 1;
                }
                None
            },
            PhraseNode::ClausalPhrase(v) => {
                let mut k: usize = 0;
                while k < v.len()
                    invariant
                        k <= v@.len(),
                        v@ == spec_phrase_children(*self),
                        self is ClausalPhrase,
                        spec_subject_from(*self, 0, true) == spec_subject_from(
                            *self,
                            k as int,
                            true,
                        ),
                    decreases v@.len() - k,
                {
                    proof {
                        assert(decreases_to!(*self => v@[k as int]));
                    }
                    let is_np: bool = match &v[k] {
                        PhraseNode::NounPhrase(_) => true,
                        _ => false,
                    };
                    if is_np {
                        let found: Option<&AnnotatedWord> = v[k].subject();
                        match found {
                            Some(aw) => {
                                return Some(aw);
                            },
                            None => {},
                        }
                    }
                    k = k + 1;
                }
                None
            },
            _ => None,
        }
    }

    /// The first position word in the tree, depth first.
    pub fn pos(&self) -> (r: Option<&AnnotatedWord>)
        ensures
            match r {
                Some(aw) => spec_pos_word(*self) == Some(*aw),
                None => spec_pos_word(*self) is None,
            },
        decreases *self,
    {
        match self {
            PhraseNode::Position(x) => Some(x),
            PhraseNode::NounPhrase(v) | PhraseNode::VerbPhrase(v) | PhraseNode::ClausalPhrase(v)
                | PhraseNode::PositionalPhrase(v) => {
                let mut k: usize = 0;
                while k < v.len()
                    invariant
                        k <= v@.len(),
                        v@ == spec_phrase_children(*self),
                        self is NounPhrase || self is VerbPhrase || self is ClausalPhrase
                            || self is PositionalPhrase,
                        spec_pos_word_from(*self, 0) == spec_pos_word_from(*self, k as int),
                    decreases v@.len() - k,
                {
                    proof {
                        assert(decreases_to!(*self => v@[k as int]));
                    }
                    let found: Option<&AnnotatedWord> = v[k].pos();
                    match found {
                        Some(aw) => {
                            return Some(aw);
                        },
                        None => {},
                    }
                    k = k + 1;
                }
                None
            },
            _ => None,
        }
    }

    /// The glosses of the tree's words, in reading order; an unrecognized
    /// word contributes nothing.
    pub fn subtitles(&self) -> (r: Vec<String>)
        decreases *self,
    {
        let mut out: Vec<String> = Vec::new();
        match self {
            PhraseNode::NounPhrase(v) | PhraseNode::VerbPhrase(v) | PhraseNode::ClausalPhrase(v)
                | PhraseNode::PositionalPhrase(v) => {
                let mut k: usize = 0;
                while k < v.len()
                    invariant
                        k <= v@.len(),
                        v@ == spec_phrase_children(*self),
                        self is NounPhrase || self is VerbPhrase || self is ClausalPhrase
                            || self is PositionalPhrase,
                    decreases v@.len() - k,
                {
                    proof {
                        assert(decreases_to!(*self => v@[k as int]));
                    }
                    let mut part: Vec<String> = v[k].subtitles();
                    let mut x: usize = 0;
                    let n: usize = part.len();
                    while x < n
                        invariant
                            x <= n,
                            n == part@.len(),
                        decreases n - x,
                    {
                        out.push(part[x].clone());
                        x = x + 1;
                    }
                    k = k + 1;
                }
            },
            PhraseNode::Noun(x) | PhraseNode::Verb(x) | PhraseNode::Position(x) => {
                match &x.entry {
                    Some(e) => out.push(e.definition.clone()),
                    None => {},
                }
            },
            _ => {},
        }
        out
    }
}

/// Whether an owned text equals a borrowed one, letter for letter./// Whether an owned text equals a borrowed one, letter for letter.
pub fn text_matches(a: &String, b: &str) -> (r: bool)
    ensures
        r == (a@ == b@),
{
    let an: usize = a.as_str().unicode_len();
    let bn: usize = b.unicode_len();
    if an != bn {
        proof {
            assert(a@.len() != b@.len());
        }
        return false;
    }
    let mut i: usize = 0;
    while i < an
        invariant
            i <= an,
            an == a@.len() == b@.len(),
            forall|k: int| 0 <= k < i ==> a@[k] == b@[k],
        decreases an - i,
    {
        if a.as_str().get_char(i) != b.get_char(i) {
            return false;
        }
        i = i + 1;
    }
    proof {
        assert(a@ =~= b@);
    }
    true
}

/// The letters of a text, for handing raw phrases to the tokenizer.
pub fn chars_of(s: &str) -> (r: Vec<char>)
    ensures
        r@ == s@,
{
    let n: usize = s.unicode_len();
    let mut out: Vec<char> = Vec::new();
    let mut i: usize = 0;
    while i < n
        invariant
            i <= n,
            n == s@.len(),
            out@ == s@.take(i as int),
        decreases n - i,
    {
        let c: char = s.get_char(i);
        out.push(c);
        proof {
            assert(out@ =~= s@.take(i + 1));
        }
        i = i + 1;
    }
    proof {
        assert(s@.take(n as int) =~= s@);
    }
    out
}

} // verus!
