//! `cat-file`: the kind of an object, or what it holds.
use vstd::prelude::*;

use crate::common::helper::{cat_file_print, cat_file_type, shown_content, shown_error};
use crate::object::store::{load_error, object_key_ok, read_object, ObjectStore};

verus! {

/// The kind of the object stored under a name.
pub fn show_type(store: &ObjectStore, hash: &str) -> (r: Result<String, String>)
    requires
        object_key_ok(hash@),
    ensures
        r is Ok <==> read_object(store@, hash@) is Some,
        r matches Ok(k) ==> read_object(store@, hash@) matches Some((kind, _)) && kind == k@,
        r matches Err(e) ==> load_error(store@, hash@, e@),
{
    cat_file_type(store, hash)
}

/// What the object stored under a name holds: the listing of a tree, the
/// text of anything else.
pub fn show_content(store: &ObjectStore, hash: &str) -> (r: Result<String, String>)
    requires
        object_key_ok(hash@),
    ensures
        r is Ok <==> (match read_object(store@, hash@) {
            Some((k, b)) => shown_content(k, b) is Some,
            None => false,
        }),
        r matches Ok(s) ==> read_object(store@, hash@) matches Some((k, b)) && shown_content(k, b)
            == Some(s@),
        r matches Err(e) ==> (match read_object(store@, hash@) {
            Some((k, b)) => shown_error(k, b) == Some(e@),
            None => load_error(store@, hash@, e@),
        }),
        (match read_object(store@, hash@) {
            Some((k, b)) => k != "tree"@ && vstd::utf8::valid_utf8(b) ==> (r matches Ok(s) && s@
                == vstd::utf8::decode_utf8(b)),
            None => true,
        }),
{
    cat_file_print(store, hash)
}

} // verus!
