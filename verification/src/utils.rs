//! Token counting: the tokenizer where it is available, a count of
//! whitespace-separated words where it is not.

use vstd::prelude::*;
use crate::text::{count_words, string_chars, word_count};

verus! {

/// `tiktoken_rs::CoreBPE`, the byte-pair encoder, carried as an opaque
/// value.
#[verifier::external_type_specification]
#[verifier::external_body]
pub struct ExCoreBPE(tiktoken_rs::CoreBPE);

/// The tokens that the `cl100k_base` encoder of `tiktoken_rs` splits a text
/// into when no special token is allowed, or nothing where the encoder
/// gives up on the text.
pub uninterp spec fn cl100k_tokens(text: Seq<char>) -> Option<Seq<u32>>;

/// `tiktoken_rs::cl100k_base`: the `cl100k_base` encoder, or nothing where
/// it cannot be set up. Nothing is promised of the outcome.
#[verifier::external_body]
fn load_cl100k() -> (bpe: Option<tiktoken_rs::CoreBPE>) {
    tiktoken_rs::cl100k_base().ok()
}

/// `CoreBPE::encode` with an empty set of allowed special tokens, on an
/// encoder that `cl100k_base` made: the tokens of the text, which depend on
/// the text alone, or nothing where the encoder reports an error.
#[verifier::external_body]
fn encode(bpe: &tiktoken_rs::CoreBPE, text: &str) -> (tokens: Option<Vec<u32>>)
    ensures
        match tokens {
            Some(v) => cl100k_tokens(text@) == Some(v@),
            None => cl100k_tokens(text@) is None,
        },
{
    bpe.encode(text, &std::collections::HashSet::new()).ok().map(|r| r.0)
}

/// The token counter of a scan.
pub struct Tokenizer {
    bpe: Option<tiktoken_rs::CoreBPE>,
}

/// The token count of a text, given what the encoder made of it: the number
/// of its tokens where it gave them, the number of whitespace-separated
/// words where it gave none.
pub open spec fn token_count_from(encoded: Option<Seq<u32>>, text: Seq<char>) -> nat {
    match encoded {
        Some(tokens) => tokens.len(),
        None => word_count(text),
    }
}

/// The token count of a text: by the encoder where it is available, by
/// words where it is not.
pub open spec fn token_count_of(available: bool, text: Seq<char>) -> nat {
    if available {
        token_count_from(cl100k_tokens(text), text)
    } else {
        word_count(text)
    }
}

/// The token count of `text`, given what the encoder made of it.
pub fn count_from_encoding(encoded: Option<Vec<u32>>, text: &str) -> (n: usize)
    ensures
        n == token_count_from(
            match encoded {
                Some(v) => Some(v@),
                None => None,
            },
            text@,
        ),
{
    match encoded {
        Some(tokens) => tokens.len(),
        None => {
            let chars = string_chars(text);
            count_words(&chars)
        },
    }
}

impl Tokenizer {
    /// Whether the encoder is there.
    pub closed spec fn available(&self) -> bool {
        self.bpe is Some
    }

    /// The counter that holds what setting the encoder up gave: it has
    /// the encoder just where there is one.
    fn with_encoder(bpe: Option<tiktoken_rs::CoreBPE>) -> (tokenizer: Tokenizer)
        ensures
            tokenizer.bpe == bpe,
            tokenizer.available() == (bpe is Some),
    {
        Tokenizer { bpe }
    }

    /// Sets the encoder up; where that fails, the counter falls back to
    /// counting words.
    pub fn load() -> (tokenizer: Tokenizer) {
        Tokenizer::with_encoder(load_cl100k())
    }

    /// A counter without encoder, which counts words.
    pub fn unavailable() -> (tokenizer: Tokenizer)
        ensures
            !tokenizer.available(),
    {
        Tokenizer { bpe: None }
    }

    /// Whether the encoder is there.
    pub fn is_available(&self) -> (b: bool)
        ensures
            b == self.available(),
    {
        self.bpe.is_some()
    }
}

/// Counts the tokens of `text`: with the encoder where it is available and
/// takes the text, else as the number of whitespace-separated words.
pub fn approximate_token_count(tokenizer: &Tokenizer, text: &str) -> (n: usize)
    ensures
        n == token_count_of(tokenizer.available(), text@),
{
    match &tokenizer.bpe {
        Some(bpe) => {
            let encoded = encode(bpe, text);
            count_from_encoding(encoded, text)
        },
        None => count_from_encoding(None, text),
    }
}

/// The token count of a text, as a command result.
pub fn get_text_token_count(tokenizer: &Tokenizer, text: String) -> (r: Result<usize, String>)
    ensures
        r is Ok,
        r->Ok_0 == token_count_of(tokenizer.available(), text@),
{
    Ok(approximate_token_count(tokenizer, text.as_str()))
}

} // verus!
