use vstd::prelude::*;

verus! {

/// A structurally malformed path, at a character offset where one is known.
#[derive(Clone, Debug, PartialEq)]
pub enum LexerError {
    InvalidPath(Option<usize>, String),
}

/// Build-time errors of `Router::insert`.
#[derive(Clone, Debug, PartialEq)]
pub enum InsertError {
    AmbiguousParams,
    EmptyPath,
    InvalidPath(Option<usize>, String),
    TrailingSlash(usize),
    TrailingWildcardPath,
}

impl From<LexerError> for InsertError {
    fn from(src: LexerError) -> InsertError {
        match src {
            LexerError::InvalidPath(position, path) => InsertError::InvalidPath(position, path),
        }
    }
}

impl vstd::std_specs::convert::FromSpecImpl<LexerError> for InsertError {
    open spec fn obeys_from_spec() -> bool {
        true
    }

    open spec fn from_spec(v: LexerError) -> InsertError {
        match v {
            LexerError::InvalidPath(position, path) => InsertError::InvalidPath(position, path),
        }
    }
}

/// Request-time errors of `Router::match_path`.
#[derive(Clone, Debug, PartialEq)]
pub enum MatchError {
    NotFound,
    InvalidPath(Option<usize>, String),
}

impl From<LexerError> for MatchError {
    fn from(src: LexerError) -> MatchError {
        match src {
            LexerError::InvalidPath(position, path) => MatchError::InvalidPath(position, path),
        }
    }
}

impl vstd::std_specs::convert::FromSpecImpl<LexerError> for MatchError {
    open spec fn obeys_from_spec() -> bool {
        true
    }

    open spec fn from_spec(v: LexerError) -> MatchError {
        match v {
            LexerError::InvalidPath(position, path) => MatchError::InvalidPath(position, path),
        }
    }
}

} // verus!
