use vstd::prelude::*;

verus! {

/// `regex::Error`, the reason why a pattern did not compile, carried along
/// unread.
#[verifier::external_type_specification]
#[verifier::external_body]
pub struct ExRegexError(regex::Error);

/// Why a document or an index could not be built.
#[derive(Debug)]
pub enum ModelError {
    /// The pattern that separates tokens did not compile.
    Pattern(regex::Error),
    /// The path, held here, has no last part to name a document by.
    MalformedPath(String),
}

} // verus!
