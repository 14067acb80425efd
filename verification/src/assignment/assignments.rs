use crate::assignment::single_assignment::SingleAssignment;
use crate::text::push_char;
use vstd::prelude::*;

verus! {

/// A list of assignments.
#[derive(Clone, Debug)]
pub struct Assignments(pub Vec<SingleAssignment>);

/// The texts of the assignments, one space between two of them.
pub open spec fn joined(s: Seq<SingleAssignment>) -> Seq<char>
    decreases s.len(),
{
    if s.len() == 0 {
        Seq::empty()
    } else if s.len() == 1 {
        s[0].text()
    } else {
        joined(s.drop_last()) + seq![' '] + s.last().text()
    }
}

impl Assignments {
    pub fn new() -> (r: Self)
        ensures
            r.0@.len() == 0,
    {
        Assignments(Vec::new())
    }

    /// The assignments, in order.
    pub fn iter(&self) -> (r: std::slice::Iter<'_, SingleAssignment>)
        ensures
            vstd::std_specs::iter::IteratorSpec::remaining(&r) == self.0@.as_ref(),
    {
        broadcast use vstd::std_specs::slice::axiom_spec_slice_iter;
        self.0.as_slice().iter()
    }

    pub fn push(&mut self, item: SingleAssignment)
        ensures
            final(self).0@ == old(self).0@.push(item),
    {
        self.0.push(item);
    }

    /// The texts of the assignments, separated by spaces.
    pub fn to_string(&self) -> (r: String)
        ensures
            r@ == joined(self.0@),
    {
        let mut s = String::new();
        let mut i: usize = 0;
        while i < self.0.len()
            invariant
                i <= self.0@.len(),
                s@ == joined(self.0@.take(i as int)),
            decreases self.0@.len() - i,
        {
            let ghost before = s@;
            assert(self.0@.take(i + 1).drop_last() =~= self.0@.take(i as int));
            if i > 0 {
                push_char(&mut s, ' ');
            }
            self.0[i].write_to(&mut s);
            proof {
                if i == 0 {
                    assert(joined(self.0@.take(1)) == self.0@[0].text());
                    assert(s@ =~= joined(self.0@.take(1)));
                } else {
                    assert(s@ =~= joined(self.0@.take(i + 1)));
                }
            }
            i = i + 1;
        }
        assert(self.0@.take(self.0@.len() as int) =~= self.0@);
        s
    }
}

} // verus!
