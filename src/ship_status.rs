use vstd::prelude::*;
use crate::ship::Ship;

verus! {

/// A catalog ship together with the number of hits it has taken.
#[derive(Clone)]
pub struct ShipStatus {
    pub(crate) base: Ship,
    pub(crate) hits: u32,
}

impl ShipStatus {
    pub closed spec fn spec_name(&self) -> Seq<char> {
        self.base.spec_name()
    }

    pub closed spec fn spec_code(&self) -> char {
        self.base.spec_code()
    }

    pub closed spec fn spec_size(&self) -> nat {
        self.base.spec_size()
    }

    pub closed spec fn spec_hits(&self) -> nat {
        self.hits as nat
    }

    /// The ship is sunk once every one of its cells has been hit.
    pub open spec fn spec_sunk(&self) -> bool {
        self.spec_hits() == self.spec_size()
    }

    pub fn new(name: &str, code: char, size: usize) -> (r: ShipStatus)
        ensures
            r.spec_name() == name@,
            r.spec_code() == code,
            r.spec_size() == size,
            r.spec_hits() == 0,
    {
        ShipStatus { base: Ship::new(name.to_string(), code, size), hits: 0 }
    }

    pub fn code(&self) -> (r: char)
        ensures
            r == self.spec_code(),
    {
        self.base.code()
    }

    pub fn name(&self) -> (r: &str)
        ensures
            r@ == self.spec_name(),
    {
        self.base.name()
    }

    pub fn size(&self) -> (r: usize)
        ensures
            r == self.spec_size(),
    {
        self.base.size()
    }

    pub fn hits(&self) -> (r: u32)
        ensures
            r == self.spec_hits(),
    {
        self.hits
    }

    pub fn is_sunk(&self) -> (r: bool)
        ensures
            r == self.spec_sunk(),
    {
        self.hits as usize == self.base.size()
    }

    /// Counts one more hit on this ship.
    pub fn record_hit(&mut self)
        requires
            old(self).spec_hits() < u32::MAX,
        ensures
            final(self).spec_name() == old(self).spec_name(),
            final(self).spec_code() == old(self).spec_code(),
            final(self).spec_size() == old(self).spec_size(),
            final(self).spec_hits() == old(self).spec_hits() + 1,
    {
        self.hits = self.hits + 1;
    }

    /// A copy of this status with every field kept.
    pub fn duplicate(&self) -> (r: ShipStatus)
        ensures
            r == *self,
    {
        ShipStatus { base: self.base.duplicate(), hits: self.hits }
    }
}

} // verus!
