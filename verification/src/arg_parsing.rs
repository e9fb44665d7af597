//! The four input numbers as a plain value; command-line handling proper
//! lives outside the verified library.
use vstd::prelude::*;

verus! {

/// The four input numbers, in the order supplied.
#[derive(Clone, Copy, Debug)]
pub struct Args {
    pub i1: i128,
    pub i2: i128,
    pub i3: i128,
    pub i4: i128,
}

impl Args {
    /// The numbers as the positional array the search takes.
    pub fn into_numbers(self) -> (r: [i128; 4])
        ensures
            r@.len() == 4,
            r@[0] == self.i1,
            r@[1] == self.i2,
            r@[2] == self.i3,
            r@[3] == self.i4,
    {
        [self.i1, self.i2, self.i3, self.i4]
    }
}

} // verus!
