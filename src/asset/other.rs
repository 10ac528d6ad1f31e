//! Files of no known kind, kept as their bytes.
use vstd::prelude::*;

verus! {

#[derive(Debug, Clone)]
pub struct Other {
    pub data: Vec<u8>,
}

impl Other {
    pub fn new(data: Vec<u8>) -> (r: Other)
        ensures
            r.data@ == data@,
    {
        Other { data }
    }

    /// The bytes of the file.
    pub fn data(self) -> (r: Vec<u8>)
        ensures
            r@ == self.data@,
    {
        self.data
    }
}

} // verus!
