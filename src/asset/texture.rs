//! Textures: image bytes that the merge carries through untouched.
use vstd::prelude::*;

verus! {

#[derive(Debug, Clone)]
pub struct Texture {
    pub data: Vec<u8>,
}

impl Texture {
    pub fn new(data: Vec<u8>) -> (r: Texture)
        ensures
            r.data@ == data@,
    {
        Texture { data }
    }

    /// The bytes of the file.
    pub fn data(self) -> (r: Vec<u8>)
        ensures
            r@ == self.data@,
    {
        self.data
    }
}

} // verus!
