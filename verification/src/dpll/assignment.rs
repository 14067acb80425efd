use crate::cnf::literals::VariableId;
use crate::text::{push_signed, signed_var};
use vstd::prelude::*;

verus! {

pub type AssignmentValue = bool;

/// The outcome of applying an assignment.
#[derive(Debug, Clone, Copy, PartialEq, Eq, Structural)]
pub enum AssignmentResult {
    Success,
    Conflict,
}

/// A value for a variable.
#[derive(Clone, Copy, Debug)]
pub struct Assignment {
    pub variable_id: VariableId,
    pub value: AssignmentValue,
}

/// Inverting an assignment twice gives it back: `b` is what `inverse` makes of `a`, and `c`
/// what it makes of `b`.
pub proof fn law_inverse_twice(a: Assignment, b: Assignment, c: Assignment)
    requires
        b.variable_id == a.variable_id,
        b.value == !a.value,
        c.variable_id == b.variable_id,
        c.value == !b.value,
    ensures
        c == a,
{
}

impl Assignment {
    pub fn new(variable_id: VariableId, value: AssignmentValue) -> (r: Self)
        ensures
            r.variable_id == variable_id,
            r.value == value,
    {
        Assignment { variable_id, value }
    }

    /// The same variable with the other value.
    pub fn inverse(&self) -> (r: Assignment)
        ensures
            r.variable_id == self.variable_id,
            r.value == !self.value,
    {
        Assignment { variable_id: self.variable_id, value: !self.value }
    }

    /// The text of the assignment: the variable, after a `-` when the value is false.
    pub fn to_string(&self) -> (r: String)
        ensures
            r@ == signed_var(self.value, self.variable_id as nat),
    {
        let mut s = String::new();
        push_signed(&mut s, self.value, self.variable_id as u64);
        assert(s@ =~= signed_var(self.value, self.variable_id as nat));
        s
    }
}

} // verus!
