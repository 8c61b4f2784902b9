use vstd::prelude::*;

verus! {

/// The ways in which the library's operations can fail.
#[derive(Debug, Clone, Copy, PartialEq, Eq, Structural)]
pub enum TrustlateError {
    /// A translation document is not a keyed document of text leaves.
    MalformedDocument,
    /// The same locale is named twice among the base and target locales.
    RepeatedLocale,
    /// A configured locale has no translation tree.
    UnknownLocale,
    /// A path does not lead to a node.
    PathNotFound,
    /// The parent of an insertion path is not an existing branch.
    ParentMissing,
    /// A leaf cannot be rendered safely in the target language.
    CodeGenFailed,
}

} // verus!
