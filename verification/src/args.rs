//! The choices that a command line offers.
use crate::number::decimal;
use crate::number::parse_usize;
use crate::number::parsed_nat;
use crate::number::push_decimal;
use vstd::prelude::*;
use vstd::string::*;

verus! {

/// The kind of a model.
#[derive(Copy, Clone, PartialEq, Eq, PartialOrd, Ord, Debug, Structural)]
pub enum ModelType {
    Gpt,
    Bigram,
    /// Conditions on the previous tokens, one fewer than its order.
    Ngram,
}

/// How a corpus is cut into tokens.
#[derive(Copy, Clone, PartialEq, Eq, Debug, Structural)]
pub enum TokenizerType {
    /// One token per character.
    Char,
    /// Byte-pair encoding, trained on the corpus.
    Bpe,
}

/// How a group of completions moves the policy.
#[derive(Copy, Clone, PartialEq, Eq, Debug, Structural)]
pub enum GrpoMode {
    /// One step by group-relative advantage.
    Lite,
    /// Several steps with clipping and a penalty for leaving the reference.
    Full,
}

/// How the operand range of evaluations is found.
#[derive(Copy, Clone, PartialEq, Eq, Debug, Structural)]
pub enum EvalMode {
    /// From the corpus; evaluations of another range are hidden.
    Smart,
    /// From the command line; the newest evaluation counts.
    Legacy,
}

/// The least vocabulary of a byte-pair encoding: the single bytes.
pub const MIN_VOCAB_SIZE: usize = 256;

/// The message with which the standard library rejects a text as a `usize`.
pub uninterp spec fn usize_error(s: Seq<char>) -> Seq<char>;

/// `str::parse::<usize>` on a text that it rejects, and the text of its error.
/// The error depends on the text alone.
#[verifier::external_body]
fn usize_error_text(s: &str) -> (r: String)
    requires
        parsed_nat(s@, usize::MAX as nat) is None,
    ensures
        r@ == usize_error(s@),
{
    match s.parse::<usize>() {
        Ok(_) => String::new(),
        Err(e) => e.to_string(),
    }
}

/// What is said of a vocabulary size that is not a number, with the reason.
pub open spec fn bad_number_message(s: Seq<char>, reason: Seq<char>) -> Seq<char> {
    "`"@ + s + "` is not a valid number: "@ + reason
}

/// What is said of a vocabulary size that is too small.
pub open spec fn small_vocab_message(v: nat) -> Seq<char> {
    "--vocab-size must be >= 256 (BPE's base vocabulary is 256 raw bytes), got "@ + decimal(v)
}

/// The message for a text that does not read as a number, for a given reason.
pub fn bad_number_text(s: &str, reason: &str) -> (r: String)
    ensures
        r@ == bad_number_message(s@, reason@),
{
    let mut m: String = "`".to_owned();
    m.append(s);
    m.append("` is not a valid number: ");
    m.append(reason);
    m
}

/// Reads a vocabulary size: a number of at least `MIN_VOCAB_SIZE`.
pub fn parse_vocab_size(s: &str) -> (r: Result<usize, String>)
    ensures
        match parsed_nat(s@, usize::MAX as nat) {
            Some(v) => if v >= MIN_VOCAB_SIZE {
                r matches Ok(n) && n == v
            } else {
                r matches Err(m) && m@ == small_vocab_message(v)
            },
            None => r matches Err(m) && m@ == bad_number_message(s@, usize_error(s@)),
        },
        r is Ok <==> (parsed_nat(s@, usize::MAX as nat) matches Some(v) && v >= 256),
{
    match parse_usize(s) {
        Some(v) => {
            if v < MIN_VOCAB_SIZE {
                let mut m: String =
                    "--vocab-size must be >= 256 (BPE's base vocabulary is 256 raw bytes), got ".to_owned();
                push_decimal(&mut m, v as u64);
                Err(m)
            } else {
                Ok(v)
            }
        },
        None => {
            let reason: String = usize_error_text(s);
            Err(bad_number_text(s, reason.as_str()))
        },
    }
}

} // verus!
