use vstd::prelude::*;

verus! {

/// Why a tag, or one of its subtags, was rejected.
#[derive(Clone, Copy, Debug, PartialEq, Eq, Structural)]
pub enum ParserError {
    /// A token breaks the length, character or role rules of its position.
    InvalidSubtag,
    /// The tag does not start with a language subtag.
    MissingPrimaryLanguage,
    /// An extension introducer is followed by no subtag.
    EmptyExtension,
}

} // verus!
