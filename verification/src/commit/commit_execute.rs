//! Making a commit from the staged files: the tree object of the index and
//! the commit object that records it.
use vstd::prelude::*;

use super::tree::{
    build_tree, hashes_valid, is_tree_of, lemma_tree_hashes_ok, object_facts, pairs_view,
    save_tree, saved_tree, subtree_facts, tree_hash, tree_height, tree_object, tree_records, Tree,
};
use crate::index::IndexEntry;
use crate::object::store::{
    encode_object, lemma_object_roundtrip, name_of, object_bytes, object_key_ok, plain_kind,
    read_object, records_view, zlib_deflate, zlib_inflate, ObjectStore,
};
use crate::refs::current_commit;
use crate::text::{lemma_lines_cons, lemma_prefixed_line, lines, one_line, strip_cr, utf8};
use vstd::utf8::{decode_utf8, valid_utf8};

verus! {

/// The staged files as paths paired with hashes.
pub open spec fn index_pairs(v: Seq<IndexEntry>) -> Seq<(Seq<char>, Seq<char>)> {
    v.map_values(|e: IndexEntry| (e.path@, e.hash@))
}

/// Builds the tree of the staged files and saves it with every tree below
/// it; returns its name. Every staged hash must be hexadecimal text.
pub fn create_tree_object(store: &mut ObjectStore, index_vec: &Vec<IndexEntry>) -> (r: Result<
    String,
    String,
>)
    requires
        hashes_valid(index_pairs(index_vec@)),
    ensures
        r matches Ok(h) ==> exists|t: Tree|
            {
                &&& #[trigger] is_tree_of(t, index_pairs(index_vec@))
                &&& h@ == tree_hash(t)
                &&& final(store)@ == saved_tree(old(store)@, t)
                &&& subtree_facts(t.entries@) && object_facts(tree_object(t))
                &&& final(store).files@.len() > old(store).files@.len() + tree_height(t.entries@)
                &&& records_view(final(store).files@) == records_view(old(store).files@)
                    + tree_records(t)
            },
        r is Ok,
        r matches Ok(h) ==> object_key_ok(h@),
{
    let mut entries: Vec<(String, String)> = Vec::new();
    let mut i: usize = 0;
    while i < index_vec.len()
        invariant
            i <= index_vec@.len(),
            pairs_view(entries@) == index_pairs(index_vec@).take(i as int),
        decreases index_vec@.len() - i,
    {
        let path = index_vec[i].path.clone();
        let hash = index_vec[i].hash.clone();
        let ghost before = pairs_view(entries@);
        entries.push((path, hash));
        proof {
            assert(path@ == index_vec@[i as int].path@);
            assert(pairs_view(entries@) =~= before.push((path@, hash@)));
            assert(pairs_view(entries@) =~= index_pairs(index_vec@).take(i + 1));
        }
        i = i + 1;
    }
    proof {
        assert(index_pairs(index_vec@).take(i as int) =~= index_pairs(index_vec@));
    }
    let tree = build_tree(entries);
    proof {
        lemma_tree_hashes_ok(tree, index_pairs(index_vec@));
    }
    save_tree(store, &tree)
}

/// The text of a commit as this module writes it: `tree`, an optional
/// `parent`, `author foo<bar@example.com>` and `committer` lines, an empty
/// line, the message and a newline.
pub open spec fn plain_commit_text(tree: Seq<char>, parent: Option<Seq<char>>, message: Seq<char>) -> Seq<
    char,
> {
    "tree "@ + tree + "\n"@ + (match parent {
        Some(p) => "parent "@ + p + "\n"@,
        None => Seq::empty(),
    }) + "author foo<bar@example.com>\n"@ + "committer foo<bar@example.com>\n"@ + "\n"@ + message
        + "\n"@
}

/// The stored form of such a commit.
pub open spec fn plain_commit_object(
    tree: Seq<char>,
    parent: Option<Seq<char>>,
    message: Seq<char>,
) -> Seq<u8> {
    object_bytes("commit"@, utf8(plain_commit_text(tree, parent, message)))
}

/// The lines of a commit's text: first `tree <tree>`, then `parent
/// <parent>` exactly when a parent is given, then the author line; when the
/// tree and parent each stand as one line.
pub proof fn law_commit_text_lines(tree: Seq<char>, parent: Option<Seq<char>>, message: Seq<char>)
    requires
        one_line(tree),
        parent matches Some(p) ==> one_line(p),
    ensures
        lines(plain_commit_text(tree, parent, message)).len() >= 3,
        lines(plain_commit_text(tree, parent, message))[0] == "tree "@ + tree,
        parent matches Some(p) ==> lines(plain_commit_text(tree, parent, message))[1] == "parent "@
            + p,
        parent matches Some(p) ==> lines(plain_commit_text(tree, parent, message))[2]
            == "author foo<bar@example.com>"@,
        parent is None ==> lines(plain_commit_text(tree, parent, message))[1]
            == "author foo<bar@example.com>"@,
{
    reveal_strlit("tree ");
    reveal_strlit("parent ");
    reveal_strlit("\n");
    reveal_strlit("author foo<bar@example.com>\n");
    reveal_strlit("author foo<bar@example.com>");
    reveal_strlit("committer foo<bar@example.com>\n");
    let text = plain_commit_text(tree, parent, message);
    let author = "author foo<bar@example.com>"@;
    assert("author foo<bar@example.com>\n"@ =~= author + seq!['\n']);
    let tail = "committer foo<bar@example.com>\n"@ + "\n"@ + message + "\n"@;
    let x0 = "tree "@ + tree;
    lemma_prefixed_line("tree "@, tree);
    assert(!author.contains('\n')) by {
        if author.contains('\n') {
            let k = choose|k: int| 0 <= k < author.len() && author[k] == '\n';
        }
    }
    assert(strip_cr(author) == author);
    lemma_lines_cons(author, tail);
    match parent {
        Some(p) => {
            let x1 = "parent "@ + p;
            lemma_prefixed_line("parent "@, p);
            let r1 = author + seq!['\n'] + tail;
            lemma_lines_cons(x1, r1);
            let r0 = x1 + seq!['\n'] + r1;
            assert(text =~= x0 + seq!['\n'] + r0);
            lemma_lines_cons(x0, r0);
        },
        None => {
            let r0 = author + seq!['\n'] + tail;
            assert(text =~= x0 + seq!['\n'] + r0);
            lemma_lines_cons(x0, r0);
        },
    }
}

/// Saves a commit of a tree, with the given parent, and returns its name.
pub fn create_commit_object(
    store: &mut ObjectStore,
    tree_hash: &String,
    message: &String,
    parent: Option<String>,
) -> (r: Result<String, String>)
    ensures
        r matches Ok(h) ==> {
            let data = plain_commit_object(
                tree_hash@,
                match parent {
                    Some(p) => Some(p@),
                    None => None,
                },
                message@,
            );
            h@ == name_of(data) && final(store)@ == old(store)@.insert(h@, zlib_deflate(data))
        },
        r matches Ok(h) ==> (match read_object(final(store)@, h@) {
            Some((k, b)) => {
                &&& k == "commit"@
                &&& valid_utf8(b)
                &&& one_line(tree_hash@) && (parent matches Some(p) ==> one_line(p@)) ==> {
                    let ls = lines(decode_utf8(b));
                    &&& ls[0] == "tree "@ + tree_hash@
                    &&& parent matches Some(p) ==> ls[1] == "parent "@ + p@
                    &&& parent is None ==> ls[1] == "author foo<bar@example.com>"@
                }
            },
            None => false,
        }),
        r is Ok,
        r matches Ok(h) ==> object_key_ok(h@),
{
    let mut body = String::from_str("tree ");
    body.append(tree_hash.as_str());
    body.append("\n");
    match &parent {
        Some(p) => {
            body.append("parent ");
            body.append(p.as_str());
            body.append("\n");
        },
        None => {},
    }
    body.append("author foo<bar@example.com>\n");
    body.append("committer foo<bar@example.com>\n");
    body.append("\n");
    body.append(message.as_str());
    body.append("\n");
    assert(body@ =~= plain_commit_text(
        tree_hash@,
        match parent {
            Some(p) => Some(p@),
            None => None,
        },
        message@,
    ));
    let ghost par: Option<Seq<char>> = match parent {
        Some(p) => Some(p@),
        None => None,
    };
    let data = encode_object("commit", body.as_str().as_bytes());
    let r = store.save_bytes(data.as_slice());
    proof {
        broadcast use vstd::utf8::encode_utf8_valid_utf8, vstd::utf8::encode_utf8_decode_utf8;

        reveal_strlit("commit");
        let kind = "commit"@;
        assert(plain_kind(kind)) by {
            if kind.contains(' ') {
                let k = choose|k: int| 0 <= k < kind.len() && kind[k] == ' ';
            }
            if kind.contains('\0') {
                let k = choose|k: int| 0 <= k < kind.len() && kind[k] == '\0';
            }
        }
        lemma_object_roundtrip(kind, utf8(body@));
        if one_line(tree_hash@) && (par matches Some(p) ==> one_line(p)) {
            law_commit_text_lines(tree_hash@, par, message@);
        }
    }
    r
}

/// The parent of the next commit: the commit the current ref holds, given
/// the text of the ref file if it could be read.
pub fn get_parent_commit_hash(ref_content: Option<String>) -> (r: Option<String>)
    ensures
        r matches Some(h) ==> ref_content matches Some(c) && crate::refs::ref_commit(c@) == Some(h@),
        r is None ==> (ref_content matches Some(c) ==> crate::refs::ref_commit(c@) is None),
{
    current_commit(ref_content)
}

} // verus!
