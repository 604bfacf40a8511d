use vstd::prelude::*;

verus! {

/// One entry of the fleet catalog: a name, a single-character code and the
/// number of cells the ship occupies.
#[derive(Clone)]
pub struct Ship {
    pub(crate) name: String,
    pub(crate) code: char,
    pub(crate) size: usize,
}

impl Ship {
    pub closed spec fn spec_name(&self) -> Seq<char> {
        self.name@
    }

    pub closed spec fn spec_code(&self) -> char {
        self.code
    }

    pub closed spec fn spec_size(&self) -> nat {
        self.size as nat
    }

    pub fn new(name: String, code: char, size: usize) -> (r: Ship)
        ensures
            r.spec_name() == name@,
            r.spec_code() == code,
            r.spec_size() == size,
    {
        Ship { name, code, size }
    }

    pub fn name(&self) -> (r: &str)
        ensures
            r@ == self.spec_name(),
    {
        self.name.as_str()
    }

    pub fn code(&self) -> (r: char)
        ensures
            r == self.spec_code(),
    {
        self.code
    }

    pub fn size(&self) -> (r: usize)
        ensures
            r == self.spec_size(),
    {
        self.size
    }

    /// A copy of this ship with every field kept.
    pub fn duplicate(&self) -> (r: Ship)
        ensures
            r == *self,
    {
        Ship { name: self.name.clone(), code: self.code, size: self.size }
    }
}

} // verus!
