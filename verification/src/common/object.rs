//! Writing raw objects into the store, and reading hexadecimal names.
use vstd::prelude::*;

use crate::object::store::{
    name_of, object_key_ok, unhex, valid_hex, zlib_deflate, zlib_inflate, ObjectStore,
};

verus! {

/// Stores bytes that already hold an object's header and returns their
/// name, as `ObjectStore::save_bytes` does.
pub fn write_object(store: &mut ObjectStore, blob: &Vec<u8>) -> (r: Result<String, String>)
    ensures
        r matches Ok(h) ==> h@ == name_of(blob@) && final(store)@ == old(store)@.insert(
            h@,
            zlib_deflate(blob@),
        ),
        r is Ok,
        r matches Ok(h) ==> object_key_ok(h@),
        r is Ok ==> zlib_inflate(zlib_deflate(blob@)) == Some(blob@),
{
    store.save_bytes(blob.as_slice())
}

/// The bytes that hexadecimal text denotes, two characters per byte.
pub fn hex_to_bytes(hex: &str) -> (r: Vec<u8>)
    requires
        valid_hex(hex@),
    ensures
        r@ == unhex(hex@),
{
    crate::object::store::hex_to_bytes(hex)
}

} // verus!
