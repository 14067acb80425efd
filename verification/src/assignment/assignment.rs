use vstd::prelude::*;

verus! {

/// Why a variable got its value.
#[derive(Debug)]
pub enum AssignmentReason {
    Forced,
    Branching,
}

/// The value of an assigned variable.
#[derive(Debug, PartialEq, Eq, Clone, Structural)]
pub enum AssignmentValue {
    True,
    False,
}

/// An assignment that borrows its value.
pub struct Assignment<'a> {
    pub variable_id: usize,
    pub value: &'a AssignmentValue,
    pub reason: AssignmentReason,
}

impl<'a> Assignment<'a> {
    pub fn new(variable_id: usize, value: &'a AssignmentValue, reason: AssignmentReason) -> (r: Self)
        ensures
            r.variable_id == variable_id,
            *r.value == *value,
            r.reason == reason,
    {
        Assignment { variable_id, value, reason }
    }
}

} // verus!
