use vstd::prelude::*;

verus! {

/// What can go wrong while fetching or reading a document.
#[derive(Debug, Clone, PartialEq, Eq)]
pub enum Error {
    Network(String),
    UnexpectedInput(String),
    InvalidUI(String),
    Other(String),
}

} // verus!
