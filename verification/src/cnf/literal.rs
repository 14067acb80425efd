use crate::cnf::variable::Variable;
use vstd::prelude::*;

verus! {

#[derive(Debug)]
enum Polarity {
    Positive,
    Negative,
}

/// A variable together with a polarity.
#[derive(Debug)]
pub struct Literal {
    variable: Variable,
    polarity: Polarity,
}

} // verus!
