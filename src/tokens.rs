//! The tokenizer, used to count the tokens of candidate chunks and to turn
//! token ids back into text.
use tokenizers::Tokenizer;
use vstd::prelude::*;

verus! {

#[verifier::external_type_specification]
#[verifier::external_body]
pub struct ExTokenizer(Tokenizer);

/// Relies on `Tokenizer::encode`: the token ids it gives for the text, or
/// the message of the error it reports. Nothing is promised of the ids:
/// they depend on the model that the tokenizer holds.
#[verifier::external_body]
pub(crate) fn encode_ids(tok: &Tokenizer, text: &Vec<char>, add_special_tokens: bool) -> (r:
    Result<Vec<u32>, String>) {
    let s: String = text.iter().collect();
    tok.encode(s, add_special_tokens).map(|e| e.get_ids().to_vec()).map_err(|e| e.to_string())
}

/// Relies on `Tokenizer::decode`: the text it gives for the ids, as
/// characters, or the message of the error it reports. Nothing is promised
/// of the text: it depends on the model that the tokenizer holds.
#[verifier::external_body]
pub(crate) fn decode_ids(tok: &Tokenizer, ids: &Vec<u32>, skip_special_tokens: bool) -> (r:
    Result<Vec<char>, String>) {
    tok.decode(ids, skip_special_tokens).map(|s| s.chars().collect()).map_err(|e| e.to_string())
}

} // verus!
