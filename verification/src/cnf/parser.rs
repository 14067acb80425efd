use vstd::prelude::*;

verus! {

/// Why an input could not be read as a formula.
#[derive(Debug)]
pub struct ParseError {
    pub reason: String,
}

} // verus!
