use vstd::prelude::*;

verus! {

/// A configuration that cannot be loaded. Each variant carries the fragment
/// of the configuration that is at fault.
#[derive(Debug, PartialEq, Eq)]
pub enum ConfigError {
    /// A path segment that opens an alternation with `?` but does not close it
    /// as `?a|b|c?`, holds a stray `?`, or lists an empty alternative.
    MalformedAlternation { segment: String },
    /// A grant names a root that the configuration does not declare.
    UnknownRoot { name: String },
    /// Two roots are declared under one name.
    DuplicateRoot { name: String },
}

} // verus!
