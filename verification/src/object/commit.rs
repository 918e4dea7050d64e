//! A commit: the tree it records, its parent, who made it, and a message.
use vstd::prelude::*;

use super::GitObject;
use crate::text::{
    first_index, lemma_first_index_after, lemma_lines_cons, lemma_prefixed_line, lines, next_line,
    one_line, starts_with, strip_cr, substring, utf8, utf8_error, utf8_to_string,
};

verus! {

/// A commit object.
pub struct Commit {
    pub tree_hash: String,
    pub parent_hash: Option<String>,
    pub author: String,
    pub committer: String,
    pub message: String,
}

/// The identity written as author and committer.
pub open spec fn default_identity() -> Seq<char> {
    "foo <bar@example.com>"@
}

/// The text of a commit: a `tree` line, a `parent` line when there is a
/// parent, `author` and `committer` lines, an empty line, the message and a
/// final newline.
pub open spec fn commit_text(
    tree: Seq<char>,
    parent: Option<Seq<char>>,
    author: Seq<char>,
    committer: Seq<char>,
    message: Seq<char>,
) -> Seq<char> {
    "tree "@ + tree + "\n"@ + (match parent {
        Some(p) => "parent "@ + p + "\n"@,
        None => Seq::empty(),
    }) + "author "@ + author + "\n"@ + "committer "@ + committer + "\n"@ + "\n"@ + message + "\n"@
}

/// The stored form of a commit made by the default identity.
pub open spec fn commit_object(tree: Seq<char>, parent: Option<Seq<char>>, message: Seq<char>) -> Seq<
    u8,
> {
    crate::object::store::object_bytes(
        seq!['c', 'o', 'm', 'm', 'i', 't'],
        utf8(commit_text(tree, parent, default_identity(), default_identity(), message)),
    )
}

/// The hash on the first line that starts with `tree `, without that prefix.
pub open spec fn tree_line_hash(ls: Seq<Seq<char>>) -> Option<Seq<char>>
    decreases ls.len(),
{
    if ls.len() == 0 {
        None
    } else if ls[0].len() >= 5 && ls[0].subrange(0, 5) == "tree "@ {
        Some(ls[0].subrange(5, ls[0].len() as int))
    } else {
        tree_line_hash(ls.drop_first())
    }
}

/// The hash on the first `tree ` line of a text.
pub fn tree_hash_in_text(text: &str) -> (r: Option<String>)
    ensures
        r is Some <==> tree_line_hash(lines(text@)) is Some,
        r matches Some(h) ==> tree_line_hash(lines(text@)) == Some(h@),
{
    let prefix = "tree ";
    proof {
        reveal_strlit("tree ");
    }
    let n = text.unicode_len();
    let mut pos: usize = 0;
    proof {
        assert(text@.subrange(0, n as int) =~= text@);
    }
    while pos < n
        invariant
            pos <= n,
            n == text@.len(),
            prefix@ == "tree "@,
            prefix@.len() == 5,
            tree_line_hash(lines(text@)) == tree_line_hash(
                lines(text@.subrange(pos as int, n as int)),
            ),
        decreases n - pos,
    {
        let (line, next) = next_line(text, pos);
        let ghost ls = lines(text@.subrange(pos as int, n as int));
        if starts_with(line.as_str(), prefix) {
            let len = line.as_str().unicode_len();
            return Some(substring(line.as_str(), 5, len));
        }
        pos = next;
    }
    proof {
        assert(text@.subrange(n as int, n as int) =~= Seq::<char>::empty());
    }
    None
}

impl Commit {
    /// A commit of a tree, with an optional parent and a message, made by
    /// the default identity.
    pub fn new(tree_hash: String, parent_hash: Option<String>, message: String) -> (r: Self)
        ensures
            r.tree_hash == tree_hash,
            r.parent_hash == parent_hash,
            r.author@ == default_identity(),
            r.committer@ == default_identity(),
            r.message == message,
    {
        Commit {
            tree_hash,
            parent_hash,
            author: String::from_str("foo <bar@example.com>"),
            committer: String::from_str("foo <bar@example.com>"),
            message,
        }
    }

    /// The tree hash written in a commit body: the rest of the first line
    /// that starts with `tree `. The body must be UTF-8.
    pub fn parse_tree_hash(body: &[u8]) -> (r: Result<String, String>)
        ensures
            r is Ok <==> (vstd::utf8::valid_utf8(body@) && tree_line_hash(
                lines(vstd::utf8::decode_utf8(body@)),
            ) is Some),
            r matches Ok(h) ==> tree_line_hash(lines(vstd::utf8::decode_utf8(body@))) == Some(h@),
            !vstd::utf8::valid_utf8(body@) ==> (r matches Err(e) && e@ == "invalid commit content: "@
                + utf8_error(body@)),
            vstd::utf8::valid_utf8(body@) && tree_line_hash(lines(vstd::utf8::decode_utf8(body@)))
                is None ==> (r matches Err(e) && e@ == "tree hash not found in commit object"@),
    {
        proof {
            reveal_strlit("invalid commit content: ");
            reveal_strlit("tree hash not found in commit object");
        }
        let content = match utf8_to_string(body) {
            Ok(c) => c,
            Err(e) => {
                let mut msg = String::from_str("invalid commit content: ");
                msg.append(e.as_str());
                return Err(msg);
            },
        };
        match tree_hash_in_text(content.as_str()) {
            Some(h) => Ok(h),
            None => Err(String::from_str("tree hash not found in commit object")),
        }
    }
}

impl GitObject for Commit {
    open spec fn kind(&self) -> Seq<char> {
        seq!['c', 'o', 'm', 'm', 'i', 't']
    }

    open spec fn body(&self) -> Seq<u8> {
        utf8(
            commit_text(
                self.tree_hash@,
                match self.parent_hash {
                    Some(p) => Some(p@),
                    None => None,
                },
                self.author@,
                self.committer@,
                self.message@,
            ),
        )
    }

    fn object_type(&self) -> (r: &str) {
        proof {
            reveal_strlit("commit");
        }
        "commit"
    }

    fn serialize_body(&self) -> (r: Vec<u8>) {
        let mut body = String::from_str("tree ");
        body.append(self.tree_hash.as_str());
        body.append("\n");
        match &self.parent_hash {
            Some(parent) => {
                body.append("parent ");
                body.append(parent.as_str());
                body.append("\n");
            },
            None => {},
        }
        body.append("author ");
        body.append(self.author.as_str());
        body.append("\n");
        body.append("committer ");
        body.append(self.committer.as_str());
        body.append("\n");
        body.append("\n");
        body.append(self.message.as_str());
        body.append("\n");
        assert(body@ =~= commit_text(
            self.tree_hash@,
            match self.parent_hash {
                Some(p) => Some(p@),
                None => None,
            },
            self.author@,
            self.committer@,
            self.message@,
        ));
        vstd::slice::slice_to_vec(body.as_str().as_bytes())
    }
}


/// The lines of a commit's text: `tree <tree>`, then `parent <parent>`
/// exactly when a parent is given, then `author <author>` and `committer
/// <committer>`; when each of these stands as one line.
pub proof fn law_commit_lines(
    tree: Seq<char>,
    parent: Option<Seq<char>>,
    author: Seq<char>,
    committer: Seq<char>,
    message: Seq<char>,
)
    requires
        one_line(tree),
        parent matches Some(p) ==> one_line(p),
        one_line(author),
        one_line(committer),
    ensures
        ({
            let ls = lines(commit_text(tree, parent, author, committer, message));
            let k: int = if parent is Some { 1 } else { 0 };
            &&& ls.len() >= 3 + k
            &&& ls[0] == "tree "@ + tree
            &&& parent matches Some(p) ==> ls[1] == "parent "@ + p
            &&& ls[1 + k] == "author "@ + author
            &&& ls[2 + k] == "committer "@ + committer
        }),
{
    reveal_strlit("tree ");
    reveal_strlit("parent ");
    reveal_strlit("author ");
    reveal_strlit("committer ");
    reveal_strlit("\n");
    let text = commit_text(tree, parent, author, committer, message);
    let x0 = "tree "@ + tree;
    let xa = "author "@ + author;
    let xc = "committer "@ + committer;
    lemma_prefixed_line("tree "@, tree);
    lemma_prefixed_line("author "@, author);
    lemma_prefixed_line("committer "@, committer);
    let tail = "\n"@ + message + "\n"@;
    lemma_lines_cons(xc, tail);
    let rc = xc + seq!['\n'] + tail;
    lemma_lines_cons(xa, rc);
    let ra = xa + seq!['\n'] + rc;
    match parent {
        Some(p) => {
            let x1 = "parent "@ + p;
            lemma_prefixed_line("parent "@, p);
            lemma_lines_cons(x1, ra);
            let r0 = x1 + seq!['\n'] + ra;
            assert(text =~= x0 + seq!['\n'] + r0);
            lemma_lines_cons(x0, r0);
        },
        None => {
            assert(text =~= x0 + seq!['\n'] + ra);
            lemma_lines_cons(x0, ra);
        },
    }
}

/// The tree hash read out of a commit's text is the one it was written
/// with, when that hash has no newline and does not end in `\r`.
pub proof fn law_commit_tree_roundtrip(
    tree: Seq<char>,
    parent: Option<Seq<char>>,
    author: Seq<char>,
    committer: Seq<char>,
    message: Seq<char>,
)
    requires
        !tree.contains('\n'),
        tree.len() > 0 ==> tree.last() != '\r',
    ensures
        tree_line_hash(
            lines(vstd::utf8::decode_utf8(utf8(commit_text(tree, parent, author, committer, message)))),
        ) == Some(tree),
{
    broadcast use vstd::utf8::encode_utf8_decode_utf8;

    reveal_strlit("tree ");
    reveal_strlit("\n");
    let text = commit_text(tree, parent, author, committer, message);
    let head = "tree "@ + tree;
    let rest = text.subrange(head.len() as int + 1, text.len() as int);
    assert(text =~= head + ("\n"@ + rest));
    assert(!head.contains('\n')) by {
        if head.contains('\n') {
            let k = choose|k: int| 0 <= k < head.len() && head[k] == '\n';
            if k >= 5 {
                assert(tree[k - 5] == '\n');
            }
        }
    }
    lemma_first_index_after(head, "\n"@ + rest, '\n');
    assert(first_index("\n"@ + rest, '\n') == Some(0int));
    assert(first_index(text, '\n') == Some(head.len() as int));
    assert(text.subrange(0, head.len() as int) =~= head);
    assert(strip_cr(head) == head);
    assert(lines(text)[0] == head);
    assert(head.subrange(0, 5) =~= "tree "@);
    assert(head.subrange(5, head.len() as int) =~= tree);
}

} // verus!
