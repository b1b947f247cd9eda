use crate::error::ModelError;
use crate::text::{keep_tokens, lemma_keep_tokens_push, pieces, tokens_of};
use vstd::prelude::*;

verus! {

/// The pattern that separates tokens: one or more characters that are not
/// ASCII letters.
pub const SEPARATORS: &'static str = "[^a-zA-Z]+";

/// Compiles `pattern` with `regex::Regex::new` and cuts `text` with
/// `regex::Regex::split`, which hands back the substrings between the
/// matches, or the reason why the pattern did not compile. The separator
/// pattern, a negated class of two ranges that is repeated once or more, is
/// one that compiles, and its matches are the maximal runs of characters
/// that are not letters: for that pattern the call succeeds, and the
/// substrings are the pieces of the text. Of other patterns nothing is
/// claimed.
#[verifier::external_body]
fn split(pattern: &str, text: &str) -> (r: Result<Vec<String>, regex::Error>)
    ensures
        pattern@ == SEPARATORS@ ==> r is Ok,
        pattern@ == SEPARATORS@ ==> (r matches Ok(found) ==> found.deep_view() == pieces(text@)),
{
    let splitter = regex::Regex::new(pattern)?;
    Ok(splitter.split(text).map(String::from).collect())
}

/// Splits text into tokens.
pub struct Tokenizer {}

impl Tokenizer {
    /// The tokens of `text`, in the order in which they stand in it. It
    /// succeeds on every text.
    pub fn tokenize(text: &str) -> (r: Result<Vec<String>, ModelError>)
        ensures
            r is Ok,
            r matches Ok(tokens) ==> tokens.deep_view() == tokens_of(text@),
    {
        Self::tokens_from(split(SEPARATORS, text))
    }

    /// Keeps the pieces that are tokens, or reports why there are no pieces.
    pub fn tokens_from(split: Result<Vec<String>, regex::Error>) -> (r: Result<
        Vec<String>,
        ModelError,
    >)
        ensures
            (match split {
                Ok(found) => r matches Ok(tokens) && tokens.deep_view() == keep_tokens(
                    found.deep_view(),
                ),
                Err(e) => r matches Err(ModelError::Pattern(cause)) && cause == e,
            }),
    {
        match split {
            Ok(found) => {
                let mut tokens: Vec<String> = Vec::new();
                let mut i: usize = 0;
                while i < found.len()
                    invariant
                        i <= found.len(),
                        tokens.deep_view() == keep_tokens(found.deep_view().take(i as int)),
                    decreases found.len() - i,
                {
                    proof {
                        let seen = found.deep_view().take(i as int);
                        assert(found.deep_view().take(i + 1) =~= seen.push(found[i as int]@));
                        lemma_keep_tokens_push(seen, found[i as int]@);
                    }
                    if !found[i].as_str().is_empty() {
                        let ghost kept = tokens.deep_view();
                        tokens.push(found[i].clone());
                        assert(tokens.deep_view() =~= kept.push(found[i as int]@));
                    }
                    i += 1;
                }
                assert(found.deep_view().take(i as int) =~= found.deep_view());
                Ok(tokens)
            },
            Err(e) => Err(ModelError::Pattern(e)),
        }
    }
}

} // verus!
