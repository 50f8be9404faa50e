//! A constructed-language negotiation engine for sandwich orders.
//!
//! Autonomous agents invent and evolve a private micro-language to negotiate
//! sandwich orders: utterances are tokenized into syllable words, annotated
//! through a lexicon or a per-word meaning cloud, parsed into typed operations,
//! applied to a shared sandwich, and encoded back into surface phrases.
//! Probabilities are per-mille fixed-point weights; every random decision draws
//! from an injected entropy source.

pub mod client;
pub mod grammar;
pub mod parser;
pub mod sandwich;
pub mod audio;
pub mod behavior;
pub mod change;
pub mod random;
pub mod state;
