//! Tone frequencies for the language's letters: each consonant and vowel
//! maps to one fixed frequency, so a syllable sounds as a two-tone pair.
//! Playing the tones is the audio collaborator's business, not this
//! module's.

use vstd::prelude::*;

use crate::grammar::{spec_consonant, spec_vowel};

verus! {

/// The tone frequency of a consonant, in hertz.
pub open spec fn spec_consonant_sound(c: char) -> u32 {
    if c == 'p' {
        460
    } else if c == 't' {
        510
    } else if c == 'k' {
        560
    } else if c == 'h' {
        620
    } else if c == 'm' {
        697
    } else if c == 'n' {
        770
    } else if c == 'w' {
        852
    } else if c == 'l' {
        941
    } else {
        1040
    }
}

/// The tone frequency of a vowel, in hertz.
pub open spec fn spec_vowel_sound(c: char) -> u32 {
    if c == 'a' {
        1209
    } else if c == 'i' {
        1336
    } else if c == 'o' {
        1477
    } else if c == 'u' {
        1600
    } else {
        1720
    }
}

/// The tone frequency of a consonant of the language.
pub fn consonant_sound(letter: char) -> (r: u32)
    requires
        spec_consonant(letter),
    ensures
        r == spec_consonant_sound(letter),
{
    match letter {
        'p' => 460,
        't' => 510,
        'k' => 560,
        'h' => 620,
        'm' => 697,
        'n' => 770,
        'w' => 852,
        'l' => 941,
        _ => 1040,
    }
}

/// The tone frequency of a vowel of the language.
pub fn vowel_sound(letter: char) -> (r: u32)
    requires
        spec_vowel(letter),
    ensures
        r == spec_vowel_sound(letter),
{
    match letter {
        'a' => 1209,
        'i' => 1336,
        'o' => 1477,
        'u' => 1600,
        _ => 1720,
    }
}

} // verus!
