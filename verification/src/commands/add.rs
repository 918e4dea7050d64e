//! `add`: staging one file.
use vstd::prelude::*;

use crate::add::add_execute::{stage_status, status_for, tree_view};
use crate::index::{entries_view, entry_view, lemma_position_of, position_of, Index, IndexEntry};
use crate::object::blob::Blob;
use crate::object::store::{name_of, object_bytes, save, zlib_deflate, ObjectStore};

verus! {

/// The index after adding a path with a hash: the first entry for the path
/// takes the hash and keeps its status; with no entry for it, one is added
/// at the end, marked `change` when the current tree has the path and
/// `create` otherwise.
pub open spec fn added(
    es: Seq<(Seq<char>, Seq<char>, Seq<char>)>,
    tree: Seq<(Seq<char>, Seq<char>)>,
    path: Seq<char>,
    hash: Seq<char>,
) -> Seq<(Seq<char>, Seq<char>, Seq<char>)> {
    match position_of(es, path) {
        Some(i) => es.update(i, (es[i].0, hash, es[i].2)),
        None => es.push((path, hash, stage_status(tree, path))),
    }
}

/// Stages a file with the given content: saves its blob and records the
/// blob's name for the path in the index, given the files of the current
/// commit's tree (which decide the status of a path not staged before).
pub fn add_file(
    index: &mut Index,
    store: &mut ObjectStore,
    tree_entries: &Vec<(String, String)>,
    path: &str,
    content: Vec<u8>,
) -> (r: Result<(), String>)
    ensures
        r is Ok ==> {
            let data = object_bytes("blob"@, content@);
            &&& final(store)@ == old(store)@.insert(name_of(data), zlib_deflate(data))
            &&& entries_view(final(index).entries@) == added(
                entries_view(old(index).entries@),
                tree_view(tree_entries@),
                path@,
                name_of(data),
            )
        },
        r is Ok,
{
    let blob = Blob { content };
    proof {
        reveal_strlit("blob");
        assert("blob"@ =~= seq!['b', 'l', 'o', 'b']);
    }
    let hash = match save(store, &blob) {
        Ok(h) => h,
        Err(e) => {
            return Err(e);
        },
    };
    let ghost before = index.entries@;
    let ghost es = entries_view(before);
    proof {
        lemma_position_of(es, path@);
    }
    match index.find_mut(path) {
        Some(entry) => {
            entry.hash = hash;
            proof {
                assert(entries_view(index.entries@) =~= added(
                    es,
                    tree_view(tree_entries@),
                    path@,
                    hash@,
                ));
            }
        },
        None => {
            let status = status_for(tree_entries, path);
            index.add(IndexEntry::new(path, hash.as_str(), status.as_str()));
            proof {
                assert(entries_view(index.entries@) =~= added(
                    es,
                    tree_view(tree_entries@),
                    path@,
                    hash@,
                ));
            }
        },
    }
    Ok(())
}

} // verus!
