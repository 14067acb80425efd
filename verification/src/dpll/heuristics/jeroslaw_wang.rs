use vstd::prelude::*;

verus! {

/// The Jeroslow-Wang rule: weighs each occurrence by two to the minus the clause length.
#[derive(Debug)]
pub struct JeroslawWang;

} // verus!
