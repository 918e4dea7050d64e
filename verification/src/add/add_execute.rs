//! Staging a file: the blob object of its content, and its entry in the
//! index, marked `change` when the current commit's tree has the path and
//! `create` otherwise.
use vstd::prelude::*;

use vstd::utf8::{decode_utf8, valid_utf8};

use crate::commit::tree::pairs_view;
use crate::common::helper::{
    collect_error, collect_spec, collect_tree_entries, commit_tree_error, get_tree_hash_from_commit,
};
use crate::common::object::write_object;
use crate::index::{
    entries_view, entry_view, lemma_position_at, lemma_position_of, position_of, IndexEntry,
};
use crate::object::commit::tree_line_hash;
use crate::object::store::{
    encode_object, load_error, name_of, object_bytes, object_key_check, object_key_ok, read_object,
    zlib_deflate, ObjectStore,
};
use crate::text::lines;

verus! {

/// Whether a path is among the files of a tree.
pub open spec fn in_tree(tree: Seq<(Seq<char>, Seq<char>)>, path: Seq<char>) -> bool {
    exists|i: int| 0 <= i < tree.len() && (#[trigger] tree[i]).0 == path
}

/// The status a staged path gets: `change` if the current tree has it,
/// `create` if not.
pub open spec fn stage_status(tree: Seq<(Seq<char>, Seq<char>)>, path: Seq<char>) -> Seq<char> {
    if in_tree(tree, path) {
        "change"@
    } else {
        "create"@
    }
}

/// The index after staging a path with a hash: the first entry for the path
/// gets the hash and the status; with no entry for it, one is added at the
/// end.
pub open spec fn staged(
    es: Seq<(Seq<char>, Seq<char>, Seq<char>)>,
    tree: Seq<(Seq<char>, Seq<char>)>,
    path: Seq<char>,
    hash: Seq<char>,
) -> Seq<(Seq<char>, Seq<char>, Seq<char>)> {
    match position_of(es, path) {
        Some(i) => es.update(i, (es[i].0, hash, stage_status(tree, path))),
        None => es.push((path, hash, stage_status(tree, path))),
    }
}

/// After staging a path, its first entry carries the new hash and is marked
/// `change` exactly when the current tree has the path, and `create`
/// otherwise, whether or not the path was staged before.
pub proof fn law_staged_status(
    es: Seq<(Seq<char>, Seq<char>, Seq<char>)>,
    tree: Seq<(Seq<char>, Seq<char>)>,
    path: Seq<char>,
    hash: Seq<char>,
)
    ensures
        position_of(staged(es, tree, path, hash), path) matches Some(i) && staged(
            es,
            tree,
            path,
            hash,
        )[i].1 == hash && staged(es, tree, path, hash)[i].2 == (if exists|k: int|
            0 <= k < tree.len() && (#[trigger] tree[k]).0 == path {
            "change"@
        } else {
            "create"@
        }),
{
    lemma_position_of(es, path);
    match position_of(es, path) {
        Some(i) => {
            lemma_position_at(staged(es, tree, path, hash), path, i);
        },
        None => {
            lemma_position_at(staged(es, tree, path, hash), path, es.len() as int);
        },
    }
}

/// Files paired with hashes, as the text they hold.
pub open spec fn tree_view(v: Seq<(String, String)>) -> Seq<(Seq<char>, Seq<char>)> {
    v.map_values(|p: (String, String)| (p.0@, p.1@))
}

/// Why the files of the current commit's tree could not be had.
pub enum HeadTreeFailure {
    /// Reading the commit or a tree failed, with this error.
    Read(String),
    /// The commit names its tree by text that is not splittable into an
    /// object directory and file name.
    BadTreeName(String),
}

/// The files of the current commit's tree, for deciding the status of a
/// staged path: none without a commit; else the files under the tree that
/// the commit records, or the error of reading the commit or the tree.
pub fn head_tree_entries(store: &ObjectStore, commit: Option<String>) -> (r: Result<
    Vec<(String, String)>,
    HeadTreeFailure,
>)
    requires
        commit matches Some(c) ==> object_key_ok(c@),
    ensures
        commit is None ==> (r matches Ok(v) && v@.len() == 0),
        commit matches Some(c) ==> (match read_object(store@, c@) {
            None => (r matches Err(HeadTreeFailure::Read(e)) && load_error(store@, c@, e@)),
            Some((k, b)) => if k == "commit"@ && valid_utf8(b) && tree_line_hash(
                lines(decode_utf8(b)),
            ) is Some {
                let t = tree_line_hash(lines(decode_utf8(b)))->0;
                if !object_key_ok(t) {
                    (r matches Err(HeadTreeFailure::BadTreeName(n)) && n@ == t)
                } else {
                    match collect_spec(store@, t, store.files@.len()) {
                        Some(fs) => (r matches Ok(v) && pairs_view(v@) == fs),
                        None => (r matches Err(HeadTreeFailure::Read(e)) && collect_error(
                            store@,
                            t,
                            store.files@.len(),
                            e@,
                        )),
                    }
                }
            } else {
                (r matches Err(HeadTreeFailure::Read(e)) && e@ == commit_tree_error(c@, k, b))
            },
        }),
{
    match commit {
        None => Ok(Vec::new()),
        Some(c) => {
            let tree_hash = match get_tree_hash_from_commit(store, c.as_str()) {
                Ok(t) => t,
                Err(e) => {
                    return Err(HeadTreeFailure::Read(e));
                },
            };
            if !object_key_check(tree_hash.as_str()) {
                return Err(HeadTreeFailure::BadTreeName(tree_hash));
            }
            match collect_tree_entries(store, tree_hash.as_str()) {
                Ok(v) => Ok(v),
                Err(e) => Err(HeadTreeFailure::Read(e)),
            }
        },
    }
}

/// Saves the blob of a file's content and returns its name.
pub fn add_file(store: &mut ObjectStore, content: &Vec<u8>) -> (r: Result<String, String>)
    ensures
        r matches Ok(h) ==> h@ == name_of(object_bytes("blob"@, content@)) && final(store)@ == old(
            store,
        )@.insert(h@, zlib_deflate(object_bytes("blob"@, content@))),
        r is Ok,
        r matches Ok(h) ==> object_key_ok(h@),
{
    let blob = encode_object("blob", content.as_slice());
    write_object(store, &blob)
}

pub(crate) fn status_for(tree_entries: &Vec<(String, String)>, path: &str) -> (r: String)
    ensures
        r@ == stage_status(tree_view(tree_entries@), path@),
{
    let key = String::from_str(path);
    let mut i: usize = 0;
    while i < tree_entries.len()
        invariant
            i <= tree_entries@.len(),
            key@ == path@,
            forall|j: int| 0 <= j < i ==> (#[trigger] tree_view(tree_entries@)[j]).0 != path@,
        decreases tree_entries@.len() - i,
    {
        if tree_entries[i].0 == key {
            assert(tree_view(tree_entries@)[i as int].0 == path@);
            return String::from_str("change");
        }
        i = i + 1;
    }
    String::from_str("create")
}

/// What `law_staged_status` says of an index whose entries are those that
/// staging gives, read off the entries themselves.
proof fn lemma_staged_entry(
    v: Seq<IndexEntry>,
    es: Seq<(Seq<char>, Seq<char>, Seq<char>)>,
    tree_entries: Seq<(String, String)>,
    path: Seq<char>,
    hash: Seq<char>,
)
    requires
        entries_view(v) == staged(es, tree_view(tree_entries), path, hash),
    ensures
        ({
            let in_tree = exists|k: int|
                0 <= k < tree_entries.len() && (#[trigger] tree_entries[k]).0@ == path;
            &&& position_of(entries_view(v), path) matches Some(i)
            &&& v[i].hash@ == hash
            &&& v[i].status@ == (if in_tree {
                "change"@
            } else {
                "create"@
            })
        }),
{
    law_staged_status(es, tree_view(tree_entries), path, hash);
    let t = tree_view(tree_entries);
    assert((exists|k: int| 0 <= k < t.len() && (#[trigger] t[k]).0 == path) == (exists|k: int|
        0 <= k < tree_entries.len() && (#[trigger] tree_entries[k]).0@ == path)) by {
        if exists|k: int| 0 <= k < t.len() && (#[trigger] t[k]).0 == path {
            let k = choose|k: int| 0 <= k < t.len() && (#[trigger] t[k]).0 == path;
            assert(tree_entries[k].0@ == path);
        }
        if exists|k: int| 0 <= k < tree_entries.len() && (#[trigger] tree_entries[k]).0@ == path {
            let k = choose|k: int| 0 <= k < tree_entries.len() && (#[trigger] tree_entries[k]).0@ == path;
            assert(t[k].0 == path);
        }
    }
    let i = position_of(entries_view(v), path)->0;
    lemma_position_of(entries_view(v), path);
    assert(entries_view(v)[i] == entry_view(v[i]));
}

/// Stages a path with the hash of its blob, given the files of the current
/// commit's tree.
pub fn add_index(
    index_vec: &mut Vec<IndexEntry>,
    tree_entries: &Vec<(String, String)>,
    path: &str,
    hash_hex: &String,
)
    ensures
        entries_view(final(index_vec)@) == staged(
            entries_view(old(index_vec)@),
            tree_view(tree_entries@),
            path@,
            hash_hex@,
        ),
        ({
            let v = final(index_vec)@;
            let in_tree = exists|k: int|
                0 <= k < tree_entries@.len() && (#[trigger] tree_entries@[k]).0@ == path@;
            &&& position_of(entries_view(v), path@) matches Some(i)
            &&& v[i].hash@ == hash_hex@
            &&& v[i].status@ == (if in_tree {
                "change"@
            } else {
                "create"@
            })
        }),
{
    let ghost es = entries_view(index_vec@);
    let status = status_for(tree_entries, path);
    let key = String::from_str(path);
    let mut i: usize = 0;
    while i < index_vec.len()
        invariant
            i <= index_vec@.len(),
            key@ == path@,
            status@ == stage_status(tree_view(tree_entries@), path@),
            es == entries_view(index_vec@),
            index_vec@ == old(index_vec)@,
            forall|j: int| 0 <= j < i ==> es[j].0 != path@,
        decreases index_vec@.len() - i,
    {
        if index_vec[i].path == key {
            proof {
                assert(es[i as int] == entry_view(index_vec@[i as int]));
                lemma_position_at(es, path@, i as int);
            }
            let ghost before = index_vec@;
            let entry = &mut index_vec[i];
            entry.hash = hash_hex.clone();
            entry.status = status;
            proof {
                let st = staged(es, tree_view(tree_entries@), path@, hash_hex@);
                assert forall|j: int| 0 <= j < before.len() implies entries_view(index_vec@)[j] == st[j] by {
                    if j != i {
                        assert(es[j] == entry_view(before[j]));
                    }
                }
                assert(entries_view(index_vec@) =~= st);
                lemma_staged_entry(index_vec@, es, tree_entries@, path@, hash_hex@);
            }
            return ;
        }
        i = i + 1;
    }
    proof {
        lemma_position_at(es, path@, i as int);
    }
    index_vec.push(IndexEntry { path: key, hash: hash_hex.clone(), status });
    proof {
        assert(entries_view(index_vec@) =~= staged(es, tree_view(tree_entries@), path@, hash_hex@));
        lemma_staged_entry(index_vec@, es, tree_entries@, path@, hash_hex@);
    }
}

} // verus!
