use crate::text::{push_signed, signed_var};
use vstd::prelude::*;

verus! {

/// Why a variable got its value.
#[derive(Debug, Clone, Copy, PartialEq, Eq, Structural)]
pub enum AssignmentReason {
    Forced,
    Branching,
}

/// The value of an assigned variable.
#[derive(Debug, PartialEq, Eq, Clone, Copy, Structural)]
pub enum AssignmentValue {
    True,
    False,
}

impl AssignmentValue {
    /// The value as a `bool`.
    pub open spec fn holds(self) -> bool {
        self == AssignmentValue::True
    }

    /// The other value.
    pub open spec fn other(self) -> AssignmentValue {
        if self.holds() {
            AssignmentValue::False
        } else {
            AssignmentValue::True
        }
    }

    /// The other value.
    pub fn get_inverse(&self) -> (r: AssignmentValue)
        ensures
            r == self.other(),
    {
        match self {
            AssignmentValue::True => AssignmentValue::False,
            AssignmentValue::False => AssignmentValue::True,
        }
    }
}

/// An assignment of a value to a variable, with the reason for it.
#[derive(Clone, Copy, Debug)]
pub struct SingleAssignment {
    pub variable_id: usize,
    pub value: AssignmentValue,
    pub reason: AssignmentReason,
}

/// Inverting an assignment twice gives it back.
pub proof fn law_inverse_twice(a: SingleAssignment)
    ensures
        a.inverted().inverted() == a,
{
}

/// The other value of the other value is the value itself.
pub proof fn law_get_inverse_twice(v: AssignmentValue)
    ensures
        v.other().other() == v,
{
}

impl SingleAssignment {
    /// The text of the assignment: the variable, after a `-` when its value is false.
    pub open spec fn text(self) -> Seq<char> {
        signed_var(self.value.holds(), self.variable_id as nat)
    }

    pub fn new(variable_id: usize, value: AssignmentValue, reason: AssignmentReason) -> (r: Self)
        ensures
            r.variable_id == variable_id,
            r.value == value,
            r.reason == reason,
    {
        SingleAssignment { variable_id, value, reason }
    }

    /// The assignment of the same variable to the other value, for the same reason.
    pub open spec fn inverted(self) -> SingleAssignment {
        SingleAssignment {
            variable_id: self.variable_id,
            value: if self.value.holds() {
                AssignmentValue::False
            } else {
                AssignmentValue::True
            },
            reason: self.reason,
        }
    }

    /// The same variable with the other value, for the same reason.
    pub fn inverse(&self) -> (r: SingleAssignment)
        ensures
            r == self.inverted(),
    {
        SingleAssignment {
            variable_id: self.variable_id,
            value: self.value.get_inverse(),
            reason: self.reason,
        }
    }

    /// Appends the text of the assignment to `s`.
    pub(crate) fn write_to(&self, s: &mut String)
        ensures
            final(s)@ == old(s)@ + self.text(),
    {
        let holds = match self.value {
            AssignmentValue::True => true,
            AssignmentValue::False => false,
        };
        push_signed(s, holds, self.variable_id as u64);
    }

    /// The text of the assignment.
    pub fn to_string(&self) -> (r: String)
        ensures
            r@ == self.text(),
    {
        let mut s = String::new();
        self.write_to(&mut s);
        assert(s@ =~= self.text());
        s
    }
}

} // verus!
