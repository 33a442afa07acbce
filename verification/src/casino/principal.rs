//! Who is acting, as far as the engine is concerned: the id of a player.
//! Constructing one checks nothing; proving who someone is happens at the
//! edge, before a principal is made.
use vstd::prelude::*;

verus! {

/// The identity of an actor: the same id that names a player.
#[derive(Clone, Copy, Debug, PartialEq, Eq, Structural, Hash, PartialOrd, Ord)]
pub struct Principal(pub u128);

impl Principal {
    pub fn new(id: u128) -> (p: Principal)
        ensures
            p.0 == id,
    {
        Principal(id)
    }

    pub fn id(&self) -> (id: u128)
        ensures
            id == self.0,
    {
        self.0
    }
}

impl From<u128> for Principal {
    fn from(value: u128) -> (p: Principal)
        ensures
            p.0 == value,
    {
        Principal(value)
    }
}

impl vstd::std_specs::convert::FromSpecImpl<u128> for Principal {
    open spec fn obeys_from_spec() -> bool {
        true
    }

    open spec fn from_spec(value: u128) -> Principal {
        Principal(value)
    }
}

impl From<Principal> for u128 {
    fn from(value: Principal) -> (id: u128)
        ensures
            id == value.0,
    {
        value.0
    }
}

impl vstd::std_specs::convert::FromSpecImpl<Principal> for u128 {
    open spec fn obeys_from_spec() -> bool {
        true
    }

    open spec fn from_spec(value: Principal) -> u128 {
        value.0
    }
}

} // verus!
