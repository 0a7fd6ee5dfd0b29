//! Trusted boundary to the table-driven entropy coder.
//!
//! The entropy-coded delta variant hands its shifted symbols and its
//! fixed-point probability table to a stack-based asymmetric-numeral-system
//! coder. The coder consumes symbols in reverse internally; at this
//! boundary the symbol order is forward on both sides.

use vstd::prelude::*;
use constriction::UnwrapInfallible;
use constriction::stream::Decode;
use crate::histogram::valid_ans_model;
use crate::MalformedBlobError;

verus! {

/// Words the stack-based entropy coder emits for a symbol stream under a
/// fixed-point model; a function of the two alone.
pub uninterp spec fn ans_words_of(symbols: Seq<u8>, probs: Seq<u32>) -> Seq<u32>;

/// Relies on constriction's `AnsCoder` with a 24-bit fixed-point
/// contiguous categorical model: a valid table builds, every byte-sized
/// symbol is in the model's range, and the emitted words are a function
/// of symbols and table alone.
#[verifier::external_body]
pub(crate) fn ans_encode(symbols: &Vec<u8>, probs: &Vec<u32>) -> (r: Vec<u32>)
    requires
        valid_ans_model(probs@),
    ensures
        r@ == ans_words_of(symbols@, probs@),
{
    let model = constriction::stream::model::DefaultContiguousCategoricalEntropyModel::from_nonzero_fixed_point_probabilities(
        probs.iter().copied(),
        false,
    ).unwrap();
    let mut coder = constriction::stream::stack::DefaultAnsCoder::new();
    coder.encode_iid_symbols_reverse(symbols.iter().map(|s| *s as usize), &model).unwrap();
    coder.into_compressed().unwrap_infallible()
}

/// Relies on the same coder for decoding: loaded with the words, model
/// and symbol count used at encode time it returns exactly the encoded
/// symbols, and it reports an error rather than panicking on a state it
/// cannot load.
#[verifier::external_body]
pub(crate) fn ans_decode(words: &Vec<u32>, probs: &Vec<u32>, count: usize) -> (r: Result<
    Vec<u8>,
    MalformedBlobError,
>)
    requires
        valid_ans_model(probs@),
    ensures
        r is Ok ==> r->Ok_0@.len() == count,
        forall|syms: Seq<u8>| words@ == ans_words_of(syms, probs@) && syms.len() == count ==> r is Ok && r->Ok_0@ == syms,
{
    let model = constriction::stream::model::DefaultContiguousCategoricalEntropyModel::from_nonzero_fixed_point_probabilities(
        probs.iter().copied(),
        false,
    ).unwrap();
    let mut coder = match constriction::stream::stack::DefaultAnsCoder::from_compressed(
        words.clone(),
    ) {
        Ok(c) => c,
        Err(_) => return Err(MalformedBlobError),
    };
    let out: Vec<u8> = coder.decode_iid_symbols(count, &model).map(
        |s| s.unwrap_infallible() as u8,
    ).collect();
    Ok(out)
}

} // verus!
