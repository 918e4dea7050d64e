//! A blob: the bytes of one file.
use vstd::prelude::*;

use super::GitObject;

verus! {

/// The content of a file, stored as it is.
pub struct Blob {
    pub content: Vec<u8>,
}

impl GitObject for Blob {
    open spec fn kind(&self) -> Seq<char> {
        seq!['b', 'l', 'o', 'b']
    }

    open spec fn body(&self) -> Seq<u8> {
        self.content@
    }

    fn object_type(&self) -> (r: &str) {
        proof {
            reveal_strlit("blob");
        }
        "blob"
    }

    fn serialize_body(&self) -> (r: Vec<u8>) {
        self.content.clone()
    }
}

} // verus!
