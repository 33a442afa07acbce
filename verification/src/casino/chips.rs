//! A starting stack: the chips a player sits down with.
use vstd::prelude::*;

use crate::casino::cashier::chips::with_commas;
use crate::casino::cashier::chips::Chips as Count;

verus! {

/// The chips a player brings to the table.
#[derive(Clone, Debug, PartialEq, Eq, Hash)]
pub struct Chips(pub Box<usize>);

impl Default for Chips {
    fn default() -> (c: Chips)
        ensures
            *c.0 == 0,
    {
        Chips(Box::new(0))
    }
}

impl Chips {
    pub fn starting(stack: usize) -> (c: Chips)
        ensures
            *c.0 == stack,
    {
        Chips(Box::new(stack))
    }

    pub fn stack(&self) -> (n: usize)
        ensures
            n == *self.0,
    {
        *self.0
    }

    /// The stack with a comma between each group of three digits.
    pub fn to_string(&self) -> (s: String)
        ensures
            s@ == with_commas(*self.0 as nat),
    {
        Count(*self.0).to_string()
    }
}

} // verus!
