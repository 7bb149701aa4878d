use vstd::prelude::*;
use crate::normalizer::{normalize_seq, normalize_tokens};
use crate::token::{lex, tokenize_bytes, tokens_view, LexerError, Token};

verus! {

/// The tokens of `s`, normalized where asked.
pub open spec fn lex_normalized(s: Seq<u8>, normalize: bool) -> Result<Seq<Token>, LexerError> {
    match lex(s) {
        Ok(ts) => Ok(
            if normalize {
                normalize_seq(ts)
            } else {
                ts
            },
        ),
        Err(e) => Err(e),
    }
}

/// Splits a trace text into tokens and, when `normalize` is set, rewrites
/// them into canonical form.
pub fn tokenize_source(source: String, normalize: bool) -> (r: Result<Vec<Token>, LexerError>)
    ensures
        tokens_view(r) == lex_normalized(vstd::utf8::encode_utf8(source@), normalize),
{
    let tokens = match tokenize_bytes(source.as_str().as_bytes()) {
        Ok(tokens) => tokens,
        Err(error) => return Err(error),
    };
    if normalize {
        Ok(normalize_tokens(tokens))
    } else {
        Ok(tokens)
    }
}

} // verus!
