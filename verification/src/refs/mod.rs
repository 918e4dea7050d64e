//! HEAD and branch references: which ref HEAD names, which commit a ref
//! holds, and the tree of that commit.
use vstd::prelude::*;

use crate::object::commit::{tree_line_hash, Commit};
use crate::object::store::{object_key_ok, read_object, ObjectStore};
use crate::text::{lines, starts_with, substring, trim, trim_text};

verus! {

/// The path of the ref file that HEAD's text names: `ref: <name>` (after
/// trimming white space) names `./.minigit/<name>`; other text names none.
pub open spec fn head_ref_path(text: Seq<char>) -> Option<Seq<char>> {
    let t = trim(text);
    if t.len() >= 5 && t.subrange(0, 5) == "ref: "@ {
        Some("./.minigit/"@ + t.subrange(5, t.len() as int))
    } else {
        None
    }
}

/// The path of the ref file that HEAD names, read from HEAD's text.
pub fn resolve_head(head_content: &str) -> (r: Result<String, String>)
    ensures
        r is Ok <==> head_ref_path(head_content@) is Some,
        r matches Ok(p) ==> head_ref_path(head_content@) == Some(p@),
        r matches Err(e) ==> e@ == "invalid HEAD format"@,
{
    let head_ref = trim_text(head_content);
    let prefix = "ref: ";
    proof {
        reveal_strlit("ref: ");
    }
    if starts_with(head_ref.as_str(), prefix) {
        let n = head_ref.as_str().unicode_len();
        let rest = substring(head_ref.as_str(), 5, n);
        let mut path = String::from_str("./.minigit/");
        path.append(rest.as_str());
        Ok(path)
    } else {
        Err(String::from_str("invalid HEAD format"))
    }
}

/// The commit a ref file's text holds: its trimmed text, when not empty.
pub open spec fn ref_commit(text: Seq<char>) -> Option<Seq<char>> {
    if trim(text).len() == 0 {
        None
    } else {
        Some(trim(text))
    }
}

/// The commit that the current branch points to, given the text of its ref
/// file if that could be read.
pub fn current_commit(ref_content: Option<String>) -> (r: Option<String>)
    ensures
        r matches Some(h) ==> ref_content matches Some(c) && ref_commit(c@) == Some(h@),
        r is None ==> (ref_content matches Some(c) ==> ref_commit(c@) is None),
{
    match ref_content {
        None => None,
        Some(content) => {
            let hash = trim_text(content.as_str());
            if hash.as_str().unicode_len() == 0 {
                None
            } else {
                Some(hash)
            }
        },
    }
}

/// The tree of the current commit, if there is one and it can be read: the
/// object stored under the commit's name must load, and its body must be
/// UTF-8 with a `tree ` line.
pub fn current_tree_hash(store: &ObjectStore, commit: Option<String>) -> (r: Option<String>)
    requires
        commit matches Some(c) ==> object_key_ok(c@),
    ensures
        r is Some <==> (commit matches Some(c) && read_object(store@, c@) matches Some((_, b))
            && vstd::utf8::valid_utf8(b) && tree_line_hash(lines(vstd::utf8::decode_utf8(b))) is Some),
        r matches Some(h) ==> commit matches Some(c) && read_object(store@, c@) matches Some((_, b))
            && tree_line_hash(lines(vstd::utf8::decode_utf8(b))) == Some(h@),
{
    let commit_hash = match commit {
        Some(c) => c,
        None => {
            return None;
        },
    };
    let body = match store.load(commit_hash.as_str()) {
        Ok((_, b)) => b,
        Err(_) => {
            return None;
        },
    };
    match Commit::parse_tree_hash(body.as_slice()) {
        Ok(h) => Some(h),
        Err(_) => None,
    }
}

} // verus!
