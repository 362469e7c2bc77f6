//! Records of the places where the published RON grammar and the parser
//! disagree.

use vstd::prelude::*;

verus! {

/// A place where the grammar document disagrees with the parser: on
/// `input`, a verbatim reading of the grammar accepts or rejects as
/// `doc_accepts` says, and the parser as `parser_accepts` says; the two
/// differ.
pub struct DocBug {
    /// The finding's identifier.
    pub finding: &'static str,
    pub input: &'static str,
    /// What a verbatim reading of the grammar does.
    pub doc_accepts: bool,
    /// What the parser does, which is the correct behaviour.
    pub parser_accepts: bool,
    pub summary: &'static str,
}

} // verus!
