use vstd::prelude::*;

verus! {

/// Why a resolution failed.
#[derive(Clone, Debug, PartialEq, Eq)]
pub enum ResolveError {
    /// The pattern could not be compiled, or its placeholder token is missing.
    Pattern { message: String },
    /// A file that was reached could not be read as text.
    FileRead { path: String },
    /// An occurrence's captures could not be interpreted.
    MatchExtraction { message: String },
}

impl ResolveError {
    /// A human-readable description of the error.
    pub fn message(&self) -> (r: String)
        ensures
            self matches ResolveError::Pattern { message } ==> r@ == "pattern error: "@ + message@,
            self matches ResolveError::FileRead { path } ==> r@ == "failed to read file: "@ + path@,
            self matches ResolveError::MatchExtraction { message } ==> r@ == "match extraction error: "@
                + message@,
    {
        proof {
            reveal_strlit("pattern error: ");
            reveal_strlit("failed to read file: ");
            reveal_strlit("match extraction error: ");
        }
        match self {
            ResolveError::Pattern { message } => {
                let mut s = String::from_str("pattern error: ");
                s.append(message.as_str());
                s
            },
            ResolveError::FileRead { path } => {
                let mut s = String::from_str("failed to read file: ");
                s.append(path.as_str());
                s
            },
            ResolveError::MatchExtraction { message } => {
                let mut s = String::from_str("match extraction error: ");
                s.append(message.as_str());
                s
            },
        }
    }
}

} // verus!
