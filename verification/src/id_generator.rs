//! Identifiers for signals: `0`, `1`, `2`, and so on, each handed out once.

use vstd::prelude::*;

verus! {

/// Hands out identifiers in rising order, starting at zero.
#[derive(Debug)]
pub struct IdGenerator {
    next_id: usize,
}

impl View for IdGenerator {
    type V = nat;

    /// The identifier that is handed out next.
    closed spec fn view(&self) -> nat {
        self.next_id as nat
    }
}

impl Default for IdGenerator {
    fn default() -> (g: Self)
        ensures
            g@ == 0,
    {
        IdGenerator::new()
    }
}

impl IdGenerator {
    /// A generator whose first identifier is zero.
    pub fn new() -> (g: Self)
        ensures
            g@ == 0,
    {
        IdGenerator { next_id: 0 }
    }

    /// The next identifier. Each call gives the successor of what the call
    /// before it gave.
    pub fn gen(&mut self) -> (id: usize)
        requires
            old(self)@ < usize::MAX,
        ensures
            id == old(self)@,
            final(self)@ == old(self)@ + 1,
    {
        let res = self.next_id;
        self.next_id += 1;
        res
    }

    /// The identifier that `gen` gives next.
    pub fn peek(&self) -> (id: usize)
        ensures
            id == self@,
    {
        self.next_id
    }
}

} // verus!
