use crate::cnf::clause::ClauseID;
use crate::cnf::literals::VariableId;
use crate::text::{push_signed, signed_var};
use vstd::prelude::*;

verus! {

pub type AssignmentValue = bool;

/// The outcome of applying an assignment to a formula.
#[derive(Debug, Clone, Copy, PartialEq, Eq, Structural)]
pub enum AssignmentResult {
    Success,
    /// The assignment falsified the clause with this ID.
    Conflict(ClauseID),
}

/// An assignment of a value to a variable, with the clause that forced it, if any.
#[derive(Clone, Copy, Debug)]
pub struct Assignment {
    pub variable_id: VariableId,
    pub value: AssignmentValue,
    pub reason: Option<ClauseID>,
}

impl Assignment {
    pub fn new(variable_id: VariableId, value: AssignmentValue, reason: Option<ClauseID>) -> (r: Self)
        ensures
            r.variable_id == variable_id,
            r.value == value,
            r.reason == reason,
    {
        Assignment { variable_id, value, reason }
    }

    /// The text of the assignment: the variable, with a leading `-` when it is assigned false.
    pub fn to_string(&self) -> (r: String)
        ensures
            r@ == signed_var(self.value, self.variable_id as nat),
    {
        let mut s = String::new();
        push_signed(&mut s, self.value, self.variable_id as u64);
        assert(s@ =~= signed_var(self.value, self.variable_id as nat));
        s
    }
}

} // verus!
