//! `commit`: a commit of the staged files.
use vstd::prelude::*;
use vstd::utf8::{decode_utf8, valid_utf8};

use crate::commit::commit_execute::{create_tree_object, index_pairs};
use crate::commit::tree::{
    hashes_valid, is_tree_of, law_tree_keeps_files, lemma_saved_tree_holds, no_name_collision,
    object_facts, occurrences, saved_tree, subtree_facts, tree_hash, tree_height, tree_object,
    tree_records, within, within_entries, Tree,
};
use crate::common::helper::{
    collect_spec, lemma_read_tree, lemma_tree_readable, pairs_readable, stored_below,
};
use crate::index::Index;
use crate::object::commit::{
    commit_object, commit_text, default_identity, law_commit_tree_roundtrip, tree_line_hash, Commit,
};
use crate::object::store::{
    lemma_name_lower_hex, lemma_object_roundtrip, name_of, object_key_ok, records_view, plain_kind, read_object, save,
    sha1_spec, zlib_deflate, zlib_inflate, ObjectStore,
};
use crate::text::{lines, utf8};

verus! {

/// Commits the staged files: saves their tree (and every tree below it) and
/// a commit of it with the given parent and message; returns the commit's
/// name. Nothing staged is an error. Every staged hash must be hexadecimal
/// text.
pub fn execute(index: &Index, store: &mut ObjectStore, parent: Option<String>, message: &str) -> (r:
    Result<String, String>)
    requires
        hashes_valid(index_pairs(index.entries@)),
    ensures
        index.entries@.len() == 0 ==> (r matches Err(e) && e@ == "nothing to commit"@),
        index.entries@.len() == 0 ==> final(store)@ == old(store)@,
        index.entries@.len() > 0 ==> r is Ok,
        r matches Ok(h) ==> object_key_ok(h@),
        r matches Ok(h) ==> exists|t: Tree|
            {
                let data = commit_object(
                    tree_hash(t),
                    match parent {
                        Some(p) => Some(p@),
                        None => None,
                    },
                    message@,
                );
                &&& #[trigger] is_tree_of(t, index_pairs(index.entries@))
                &&& h@ == name_of(data)
                &&& final(store)@ == saved_tree(old(store)@, t).insert(h@, zlib_deflate(data))
                &&& subtree_facts(t.entries@) && object_facts(tree_object(t))
                &&& zlib_inflate(zlib_deflate(data)) == Some(data)
                &&& final(store).files@.len() > tree_height(t.entries@)
                &&& records_view(final(store).files@) == (records_view(old(store).files@)
                    + tree_records(t)).push((h@, zlib_deflate(data)))
            },
{
    if index.is_empty() {
        return Err(String::from_str("nothing to commit"));
    }
    let tree_hash = match create_tree_object(store, &index.entries) {
        Ok(h) => h,
        Err(e) => {
            return Err(e);
        },
    };
    let commit = Commit::new(tree_hash, parent, String::from_str(message));
    save(store, &commit)
}

/// What a commit records reads back: the object stored under the commit's
/// name is a commit whose `tree` line names the saved tree, and reading that
/// tree back gives every staged path and hash exactly as often as it was
/// staged. This holds when staged paths have no zero character and staged
/// hashes are written as object names are, no two trees below the saved one
/// share a SHA-1 and none shares the commit's, and the reader may descend
/// deeper than the tree nests; the other premises are what a successful
/// `execute` reports of the objects it saved.
pub proof fn law_commit_records_staged(
    m: Map<Seq<char>, Seq<u8>>,
    staged: Seq<(Seq<char>, Seq<char>)>,
    t: Tree,
    parent: Option<Seq<char>>,
    message: Seq<char>,
    fuel: nat,
)
    requires
        is_tree_of(t, staged),
        pairs_readable(staged),
        subtree_facts(t.entries@),
        object_facts(tree_object(t)),
        zlib_inflate(zlib_deflate(commit_object(tree_hash(t), parent, message))) == Some(
            commit_object(tree_hash(t), parent, message),
        ),
        no_name_collision(t),
        forall|s: Tree|
            #[trigger] within(s, t) ==> tree_hash(s) != name_of(
                commit_object(tree_hash(t), parent, message),
            ),
        fuel > tree_height(t.entries@),
    ensures
        ({
            let data = commit_object(tree_hash(t), parent, message);
            let after = saved_tree(m, t).insert(name_of(data), zlib_deflate(data));
            &&& read_object(after, name_of(data)) matches Some((k, b)) && k == "commit"@
                && valid_utf8(b) && tree_line_hash(lines(decode_utf8(b))) == Some(tree_hash(t))
            &&& collect_spec(after, tree_hash(t), fuel) matches Some(files) && forall|
                p: (Seq<char>, Seq<char>),
            | #[trigger] occurrences(files, p) == occurrences(staged, p)
        }),
{
    broadcast use vstd::utf8::encode_utf8_valid_utf8, vstd::utf8::encode_utf8_decode_utf8;

    let data = commit_object(tree_hash(t), parent, message);
    let h = name_of(data);
    let saved = saved_tree(m, t);
    let after = saved.insert(h, zlib_deflate(data));
    // the commit reads back with its tree line
    let kind = seq!['c', 'o', 'm', 'm', 'i', 't'];
    reveal_strlit("commit");
    assert(kind == "commit"@);
    assert(plain_kind(kind)) by {
        if kind.contains(' ') {
            let k = choose|k: int| 0 <= k < 6 && kind[k] == ' ';
        }
        if kind.contains('\0') {
            let k = choose|k: int| 0 <= k < 6 && kind[k] == '\0';
        }
    }
    let text = commit_text(tree_hash(t), parent, default_identity(), default_identity(), message);
    lemma_object_roundtrip(kind, utf8(text));
    assert(read_object(after, h) == Some((kind, utf8(text))));
    assert(object_facts(tree_object(t)));
    lemma_name_lower_hex(sha1_spec(tree_object(t)));
    let th = tree_hash(t);
    assert(!th.contains('\n')) by {
        if th.contains('\n') {
            let k = choose|k: int| 0 <= k < th.len() && th[k] == '\n';
        }
    }
    assert(th.last() != '\r') by {
        assert(th[th.len() - 1] == th.last());
    }
    law_commit_tree_roundtrip(th, parent, default_identity(), default_identity(), message);
    // the saved tree reads back as the files it holds, the staged ones
    assert(within(t, t));
    lemma_saved_tree_holds(m, t, t);
    assert(stored_below(after, t.entries@)) by {
        assert forall|s: Tree| #[trigger] within_entries(s, t.entries@)
            implies after.dom().contains(tree_hash(s)) && after[tree_hash(s)] == zlib_deflate(
            tree_object(s),
        ) by {
            assert(within(s, t));
            lemma_saved_tree_holds(m, t, s);
        }
    }
    lemma_tree_readable(t, staged);
    lemma_read_tree(after, t, fuel);
    law_tree_keeps_files(t, staged);
}

} // verus!
