//! Options for reading RON: extensions enabled by default, and the limit
//! on how deeply values may nest.

use vstd::prelude::*;

use crate::extensions::Extensions;

verus! {

/// The recursion limit that options start with.
pub const DEFAULT_RECURSION_LIMIT: usize = 128;

/// Options for reading RON documents.
#[derive(Clone, Copy, Debug, PartialEq, Eq, Structural)]
pub struct Options {
    /// Extensions enabled for every document, whether or not it enables
    /// them itself.
    pub default_extensions: Extensions,
    /// How deeply values may nest; `None` for no limit.
    pub recursion_limit: Option<usize>,
}

impl Options {
    /// The default options: no default extensions, and the default
    /// recursion limit.
    pub open spec fn spec_default() -> Options {
        Options { default_extensions: Extensions { bits: 0 }, recursion_limit: Some(DEFAULT_RECURSION_LIMIT) }
    }

    /// These options with the extensions `e` enabled by default as well.
    pub open spec fn spec_with(self, e: Extensions) -> Options {
        Options {
            default_extensions: Extensions { bits: self.default_extensions.bits | e.bits },
            ..self
        }
    }

    /// These options with the extensions `e` no longer enabled by default.
    pub open spec fn spec_without(self, e: Extensions) -> Options {
        Options {
            default_extensions: Extensions { bits: self.default_extensions.bits & !e.bits },
            ..self
        }
    }

    /// Options with no default extensions and the default recursion limit.
    pub fn build() -> (o: Options)
        ensures
            o == Options::spec_default(),
    {
        Options { default_extensions: Extensions::empty(), recursion_limit: Some(DEFAULT_RECURSION_LIMIT) }
    }

    /// These options with `default_extension` enabled by default as well.
    pub fn with_default_extension(self, default_extension: Extensions) -> (o: Options)
        ensures
            o == self.spec_with(default_extension),
    {
        Options { default_extensions: self.default_extensions.union(default_extension), ..self }
    }

    /// These options with `default_extension` no longer enabled by
    /// default.
    pub fn without_default_extension(self, default_extension: Extensions) -> (o: Options)
        ensures
            o == self.spec_without(default_extension),
    {
        Options {
            default_extensions: self.default_extensions.difference(default_extension),
            ..self
        }
    }

    /// These options with the recursion limit `recursion_limit`.
    pub fn with_recursion_limit(self, recursion_limit: usize) -> (o: Options)
        ensures
            o.default_extensions == self.default_extensions,
            o.recursion_limit == Some(recursion_limit),
    {
        Options { recursion_limit: Some(recursion_limit), ..self }
    }

    /// These options without a recursion limit.
    pub fn without_recursion_limit(self) -> (o: Options)
        ensures
            o.default_extensions == self.default_extensions,
            o.recursion_limit is None,
    {
        Options { recursion_limit: None, ..self }
    }
}

impl Default for Options {
    fn default() -> (o: Options)
        ensures
            o.default_extensions.bits == 0,
            o.recursion_limit == Some(DEFAULT_RECURSION_LIMIT),
    {
        Options::build()
    }
}

/// Enabling extensions by default and then no longer enabling them is the
/// same as no longer enabling them: what was enabled before does not
/// matter, and the other extensions keep their state.
pub proof fn lemma_with_then_without(o: Options, e: Extensions)
    ensures
        o.spec_with(e).spec_without(e) == o.spec_without(e),
        !(o.spec_with(e).spec_without(e).default_extensions.bits & e.bits != 0),
{
    let bits = o.default_extensions.bits;
    let eb = e.bits;
    assert((bits | eb) & !eb == bits & !eb) by (bit_vector);
    assert(((bits | eb) & !eb) & eb == 0) by (bit_vector);
}

/// Enabling extensions by default twice is enabling them once, and
/// afterwards they are enabled.
pub proof fn lemma_with_idempotent(o: Options, e: Extensions)
    ensures
        o.spec_with(e).spec_with(e) == o.spec_with(e),
        o.spec_with(e).default_extensions.spec_contains(e),
{
    let bits = o.default_extensions.bits;
    let eb = e.bits;
    assert((bits | eb) | eb == bits | eb) by (bit_vector);
    assert((bits | eb) & eb == eb) by (bit_vector);
}

} // verus!
