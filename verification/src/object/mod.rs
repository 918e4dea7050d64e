//! Objects of the store: the shape every object shares, and its kinds.
pub mod blob;
pub mod commit;
pub mod store;

use vstd::prelude::*;

verus! {

/// An object that can be kept in the store: a kind and a body of bytes.
pub trait GitObject {
    /// The kind written in the object's header.
    spec fn kind(&self) -> Seq<char>;

    /// The bytes that follow the header.
    spec fn body(&self) -> Seq<u8>;

    fn object_type(&self) -> (r: &str)
        ensures
            r@ == self.kind(),
    ;

    fn serialize_body(&self) -> (r: Vec<u8>)
        ensures
            r@ == self.body(),
    ;
}

} // verus!
