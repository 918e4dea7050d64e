//! Trees: the nested shape of a set of staged paths, and tree objects.
use vstd::prelude::*;

use vstd::slice::slice_to_vec;

use crate::object::store::{
    encode_object, object_key_ok, records_view, hex_of, hex_to_bytes, lemma_hex_roundtrip, name_of, object_bytes, sha1_spec,
    unhex, valid_hex, zlib_deflate, zlib_inflate, ObjectStore,
};
use crate::text::{
    find_char, first_index, lemma_first_index, lemma_first_index_after, substring, utf8,
};

verus! {

/// One entry of a tree: a file with the name of its blob, or a directory
/// with the tree below it.
#[derive(Debug, PartialEq)]
pub enum TreeEntry {
    File { name: String, hash: String },
    Directory { name: String, children: Tree },
}

/// The entries of one directory level.
#[derive(Debug, PartialEq)]
pub struct Tree {
    pub entries: Vec<TreeEntry>,
}

/// Paths paired with hashes, as the text they hold.
pub open spec fn pairs_view(v: Seq<(String, String)>) -> Seq<(Seq<char>, Seq<char>)> {
    v.map_values(|p: (String, String)| (p.0@, p.1@))
}

/// The text before the first `/` of a path, when it has one.
pub open spec fn first_segment(path: Seq<char>) -> Option<Seq<char>> {
    match first_index(path, '/') {
        Some(i) => Some(path.subrange(0, i)),
        None => None,
    }
}

/// The text after the first `/` of a path.
pub open spec fn after_first_segment(path: Seq<char>) -> Seq<char> {
    match first_index(path, '/') {
        Some(i) => path.subrange(i + 1, path.len() as int),
        None => path,
    }
}

/// The directories at the top level, each once, in the order in which their
/// first path appears.
pub open spec fn dir_names(es: Seq<(Seq<char>, Seq<char>)>) -> Seq<Seq<char>>
    decreases es.len(),
{
    if es.len() == 0 {
        Seq::empty()
    } else {
        let prev = dir_names(es.drop_last());
        match first_segment(es.last().0) {
            Some(d) => if prev.contains(d) {
                prev
            } else {
                prev.push(d)
            },
            None => prev,
        }
    }
}

/// The pairs whose path has no `/`, in order.
pub open spec fn file_entries(es: Seq<(Seq<char>, Seq<char>)>) -> Seq<(Seq<char>, Seq<char>)>
    decreases es.len(),
{
    if es.len() == 0 {
        Seq::empty()
    } else {
        let prev = file_entries(es.drop_last());
        if first_segment(es.last().0) is None {
            prev.push(es.last())
        } else {
            prev
        }
    }
}

/// The pairs under directory `d`, in order, with `d/` taken off their paths.
pub open spec fn children_of(es: Seq<(Seq<char>, Seq<char>)>, d: Seq<char>) -> Seq<
    (Seq<char>, Seq<char>),
>
    decreases es.len(),
{
    if es.len() == 0 {
        Seq::empty()
    } else {
        let prev = children_of(es.drop_last(), d);
        if first_segment(es.last().0) == Some(d) {
            prev.push((after_first_segment(es.last().0), es.last().1))
        } else {
            prev
        }
    }
}

/// The tree that a list of paths and hashes builds: first one directory per
/// top-level directory name, in order of first appearance, each holding the
/// tree of the paths below it; then one file per path without `/`, in order.
pub open spec fn is_tree_of(t: Tree, es: Seq<(Seq<char>, Seq<char>)>) -> bool
    decreases t,
{
    let dirs = dir_names(es);
    let files = file_entries(es);
    &&& t.entries@.len() == dirs.len() + files.len()
    &&& forall|i: int|
        0 <= i < dirs.len() ==> (#[trigger] t.entries@[i] matches TreeEntry::Directory {
            name,
            children,
        } && name@ == dirs[i] && is_tree_of(children, children_of(es, dirs[i])))
    &&& forall|j: int|
        0 <= j < files.len() ==> is_file_entry(t.entries@[dirs.len() + j], #[trigger] files[j])
}

/// Whether an entry is the file with this name and hash.
pub open spec fn is_file_entry(e: TreeEntry, f: (Seq<char>, Seq<char>)) -> bool {
    e matches TreeEntry::File { name, hash } && name@ == f.0 && hash@ == f.1
}

/// The total length of the paths.
pub open spec fn total_len(es: Seq<(Seq<char>, Seq<char>)>) -> nat
    decreases es.len(),
{
    if es.len() == 0 {
        0
    } else {
        total_len(es.drop_last()) + es.last().0.len()
    }
}

proof fn lemma_after_first_segment_len(path: Seq<char>)
    requires
        first_segment(path) is Some,
    ensures
        after_first_segment(path).len() < path.len(),
{
    lemma_first_index(path, '/');
}

proof fn lemma_children_not_longer(es: Seq<(Seq<char>, Seq<char>)>, d: Seq<char>)
    ensures
        total_len(children_of(es, d)) <= total_len(es),
    decreases es.len(),
{
    if es.len() > 0 {
        lemma_children_not_longer(es.drop_last(), d);
        if first_segment(es.last().0) == Some(d) {
            lemma_after_first_segment_len(es.last().0);
            let c = children_of(es, d);
            assert(c.drop_last() == children_of(es.drop_last(), d));
        }
    }
}

/// The paths below a top-level directory are shorter in total than all paths.
proof fn lemma_children_shorter(es: Seq<(Seq<char>, Seq<char>)>, d: Seq<char>)
    requires
        dir_names(es).contains(d),
    ensures
        total_len(children_of(es, d)) < total_len(es),
    decreases es.len(),
{
    if es.len() > 0 {
        let prev = dir_names(es.drop_last());
        if first_segment(es.last().0) == Some(d) {
            lemma_children_not_longer(es.drop_last(), d);
            lemma_after_first_segment_len(es.last().0);
            let c = children_of(es, d);
            assert(c.drop_last() == children_of(es.drop_last(), d));
        } else {
            assert(prev.contains(d)) by {
                if !prev.contains(d) {
                    match first_segment(es.last().0) {
                        Some(e) => {
                            if !prev.contains(e) {
                                let k = choose|k: int|
                                    0 <= k < prev.push(e).len() && prev.push(e)[k] == d;
                                if k < prev.len() {
                                    assert(prev[k] == d);
                                }
                            }
                        },
                        None => {},
                    }
                }
            }
            lemma_children_shorter(es.drop_last(), d);
        }
    }
}

fn contains_name(names: &Vec<String>, name: &String) -> (r: bool)
    ensures
        r == names@.map_values(|s: String| s@).contains(name@),
{
    let ghost view = names@.map_values(|s: String| s@);
    let mut i: usize = 0;
    while i < names.len()
        invariant
            i <= names@.len(),
            view == names@.map_values(|s: String| s@),
            forall|j: int| 0 <= j < i ==> view[j] != name@,
        decreases names@.len() - i,
    {
        if names[i] == *name {
            assert(view[i as int] == name@);
            return true;
        }
        i = i + 1;
    }
    proof {
        if view.contains(name@) {
            let k = choose|k: int| 0 <= k < view.len() && view[k] == name@;
            assert(view[k] != name@);
        }
    }
    false
}

/// The pairs under directory `dir`, with `dir/` taken off their paths.
fn entries_under(entries: &Vec<(String, String)>, dir: &String) -> (r: Vec<(String, String)>)
    ensures
        pairs_view(r@) == children_of(pairs_view(entries@), dir@),
{
    let ghost es = pairs_view(entries@);
    let mut r: Vec<(String, String)> = Vec::new();
    let mut i: usize = 0;
    while i < entries.len()
        invariant
            i <= entries@.len(),
            es == pairs_view(entries@),
            pairs_view(r@) == children_of(es.take(i as int), dir@),
        decreases entries@.len() - i,
    {
        let path = &entries[i].0;
        let hash = &entries[i].1;
        proof {
            assert(es.take(i + 1).drop_last() =~= es.take(i as int));
            assert(es.take(i + 1).last() == es[i as int]);
            assert(es[i as int] == (path@, hash@));
            assert(path@.subrange(0, path@.len() as int) =~= path@);
            lemma_first_index(path@, '/');
        }
        match find_char(path.as_str(), '/', 0) {
            Some(pos) => {
                let seg = substring(path.as_str(), 0, pos);
                if seg == *dir {
                    let n = path.as_str().unicode_len();
                    let rest = substring(path.as_str(), pos + 1, n);
                    r.push((rest, hash.clone()));
                    proof {
                        assert(pairs_view(r@) =~= children_of(es.take(i + 1), dir@));
                    }
                } else {
                    proof {
                        assert(pairs_view(r@) =~= children_of(es.take(i + 1), dir@));
                    }
                }
            },
            None => {
                proof {
                    assert(pairs_view(r@) =~= children_of(es.take(i + 1), dir@));
                }
            },
        }
        i = i + 1;
    }
    proof {
        assert(es.take(entries@.len() as int) =~= es);
    }
    r
}

/// Builds the nested tree of a flat list of staged paths and their hashes:
/// a path `a/b` goes into directory `a` as `b`.
pub fn build_tree(entries: Vec<(String, String)>) -> (t: Tree)
    ensures
        is_tree_of(t, pairs_view(entries@)),
    decreases total_len(pairs_view(entries@)),
{
    let ghost es = pairs_view(entries@);
    let mut dirs: Vec<String> = Vec::new();
    let mut files: Vec<TreeEntry> = Vec::new();
    let mut i: usize = 0;
    while i < entries.len()
        invariant
            i <= entries@.len(),
            es == pairs_view(entries@),
            dirs@.map_values(|s: String| s@) == dir_names(es.take(i as int)),
            files@.len() == file_entries(es.take(i as int)).len(),
            forall|j: int|
                0 <= j < files@.len() ==> (#[trigger] files@[j] matches TreeEntry::File {
                    name,
                    hash,
                } && name@ == file_entries(es.take(i as int))[j].0 && hash@ == file_entries(
                    es.take(i as int),
                )[j].1),
        decreases entries@.len() - i,
    {
        let path = &entries[i].0;
        let hash = &entries[i].1;
        let ghost fe = file_entries(es.take(i as int));
        proof {
            assert(es.take(i + 1).drop_last() =~= es.take(i as int));
            assert(es.take(i + 1).last() == es[i as int]);
            assert(es[i as int] == (path@, hash@));
            assert(path@.subrange(0, path@.len() as int) =~= path@);
            lemma_first_index(path@, '/');
        }
        match find_char(path.as_str(), '/', 0) {
            Some(pos) => {
                let seg = substring(path.as_str(), 0, pos);
                if !contains_name(&dirs, &seg) {
                    dirs.push(seg);
                    proof {
                        assert(dirs@.map_values(|s: String| s@) =~= dir_names(es.take(i + 1)));
                    }
                }
            },
            None => {
                let ghost before = files@;
                files.push(TreeEntry::File { name: path.clone(), hash: hash.clone() });
                proof {
                    let fe2 = file_entries(es.take(i + 1));
                    assert(fe2 == fe.push((path@, hash@)));
                    assert forall|j: int| 0 <= j < files@.len() implies (#[trigger] files@[j] matches TreeEntry::File {
                        name,
                        hash,
                    } && name@ == fe2[j].0 && hash@ == fe2[j].1) by {
                        if j < fe.len() {
                            assert(files@[j] == before[j]);
                        }
                    }
                }
            },
        }
        i = i + 1;
    }
    proof {
        assert(es.take(entries@.len() as int) =~= es);
    }
    let ghost names = dir_names(es);
    let ghost fe = file_entries(es);
    let mut out: Vec<TreeEntry> = Vec::new();
    let mut k: usize = 0;
    while k < dirs.len()
        invariant
            k <= dirs@.len(),
            es == pairs_view(entries@),
            dirs@.map_values(|s: String| s@) == names,
            names == dir_names(es),
            out@.len() == k,
            forall|m: int|
                0 <= m < k ==> (#[trigger] out@[m] matches TreeEntry::Directory {
                    name,
                    children,
                } && name@ == names[m] && is_tree_of(children, children_of(es, names[m]))),
        decreases dirs@.len() - k,
    {
        let under = entries_under(&entries, &dirs[k]);
        proof {
            assert(names[k as int] == dirs@[k as int]@);
            assert(names.contains(dirs@[k as int]@));
            lemma_children_shorter(es, dirs@[k as int]@);
        }
        let children = build_tree(under);
        out.push(TreeEntry::Directory { name: dirs[k].clone(), children });
        k = k + 1;
    }
    let ghost ndirs = out@.len();
    let mut files = files;
    let ghost file_list = files@;
    out.append(&mut files);
    let t = Tree { entries: out };
    proof {
        assert forall|j: int| 0 <= j < fe.len() implies is_file_entry(
            t.entries@[names.len() + j],
            #[trigger] fe[j],
        ) by {
            assert(t.entries@[names.len() + j] == file_list[j]);
        }
    }
    t
}


// ---------------------------------------------------------------------------
// Tree objects
// ---------------------------------------------------------------------------

/// The kind of a tree object.
pub open spec fn tree_kind() -> Seq<char> {
    seq!['t', 'r', 'e', 'e']
}

/// The mode written for a file.
pub open spec fn file_mode() -> Seq<char> {
    seq!['1', '0', '0', '6', '4', '4']
}

/// The mode written for a directory.
pub open spec fn dir_mode() -> Seq<char> {
    seq!['4', '0', '0', '0', '0']
}

/// One entry of a tree object: the mode, a space, the name, a zero byte and
/// the raw bytes of the hash.
pub open spec fn tree_record(mode: Seq<char>, name: Seq<char>, hash: Seq<u8>) -> Seq<u8> {
    utf8(mode) + seq![32u8] + utf8(name) + seq![0u8] + hash
}

/// The body of a tree object holding these entries, in order: a file
/// records the bytes its hash text denotes, a directory the SHA-1 of the
/// tree object below it.
pub open spec fn entries_body(es: Seq<TreeEntry>) -> Seq<u8>
    decreases es,
{
    if es.len() == 0 {
        Seq::empty()
    } else {
        entries_body(es.drop_last()) + match es.last() {
            TreeEntry::File { name, hash } => tree_record(file_mode(), name@, unhex(hash@)),
            TreeEntry::Directory { name, children } => tree_record(
                dir_mode(),
                name@,
                sha1_spec(object_bytes(tree_kind(), entries_body(children.entries@))),
            ),
        }
    }
}

/// The stored form of a tree object.
pub open spec fn tree_object(t: Tree) -> Seq<u8> {
    object_bytes(tree_kind(), entries_body(t.entries@))
}

/// The name of a tree object.
pub open spec fn tree_hash(t: Tree) -> Seq<char> {
    name_of(tree_object(t))
}

/// What saving a tree object establishes of it: its SHA-1 has twenty
/// bytes, and its compressed form inflates back to it.
pub open spec fn object_facts(data: Seq<u8>) -> bool {
    sha1_spec(data).len() == 20 && zlib_inflate(zlib_deflate(data)) == Some(data)
}

/// `object_facts` holds of every tree object below the entries, at any
/// depth; saving the tree establishes it.
pub open spec fn subtree_facts(es: Seq<TreeEntry>) -> bool
    decreases es,
{
    forall|i: int|
        0 <= i < es.len() ==> match #[trigger] es[i] {
            TreeEntry::File { .. } => true,
            TreeEntry::Directory { children, .. } => object_facts(
                object_bytes(tree_kind(), entries_body(children.entries@)),
            ) && subtree_facts(children.entries@),
        }
}

/// How deep directories nest below the entries.
pub open spec fn tree_height(es: Seq<TreeEntry>) -> nat
    decreases es,
{
    if es.len() == 0 {
        0
    } else {
        let h = tree_height(es.drop_last());
        let l = match es.last() {
            TreeEntry::File { .. } => 0,
            TreeEntry::Directory { children, .. } => 1 + tree_height(children.entries@),
        };
        if h >= l {
            h
        } else {
            l
        }
    }
}

/// Every file hash in the entries, at any depth, is text that
/// `hex_to_bytes` accepts.
pub open spec fn tree_hashes_ok(es: Seq<TreeEntry>) -> bool
    decreases es,
{
    forall|i: int|
        0 <= i < es.len() ==> match #[trigger] es[i] {
            TreeEntry::File { hash, .. } => valid_hex(hash@),
            TreeEntry::Directory { children, .. } => tree_hashes_ok(children.entries@),
        }
}

/// The store after saving, in order, the tree objects below these entries.
pub open spec fn saved_entries(m: Map<Seq<char>, Seq<u8>>, es: Seq<TreeEntry>) -> Map<
    Seq<char>,
    Seq<u8>,
>
    decreases es,
{
    if es.len() == 0 {
        m
    } else {
        let m1 = saved_entries(m, es.drop_last());
        match es.last() {
            TreeEntry::File { .. } => m1,
            TreeEntry::Directory { children, .. } => saved_entries(m1, children.entries@).insert(
                name_of(object_bytes(tree_kind(), entries_body(children.entries@))),
                zlib_deflate(object_bytes(tree_kind(), entries_body(children.entries@))),
            ),
        }
    }
}

/// The store after saving a tree: the trees below it, then the tree itself.
pub open spec fn saved_tree(m: Map<Seq<char>, Seq<u8>>, t: Tree) -> Map<Seq<char>, Seq<u8>> {
    saved_entries(m, t.entries@).insert(tree_hash(t), zlib_deflate(tree_object(t)))
}

/// The records that saving the trees below entries adds to a store, in
/// order: for each directory entry, the records of the trees below it, then
/// its own tree's record.
pub open spec fn entries_records(es: Seq<TreeEntry>) -> Seq<(Seq<char>, Seq<u8>)>
    decreases es,
{
    if es.len() == 0 {
        Seq::empty()
    } else {
        entries_records(es.drop_last()) + match es.last() {
            TreeEntry::File { .. } => Seq::empty(),
            TreeEntry::Directory { children, .. } => entries_records(children.entries@).push(
                (
                    name_of(object_bytes(tree_kind(), entries_body(children.entries@))),
                    zlib_deflate(object_bytes(tree_kind(), entries_body(children.entries@))),
                ),
            ),
        }
    }
}

/// The records that saving a tree adds to a store, in order: those of the
/// trees below it, each subtree before its parent, and last its own.
pub open spec fn tree_records(t: Tree) -> Seq<(Seq<char>, Seq<u8>)> {
    entries_records(t.entries@).push((tree_hash(t), zlib_deflate(tree_object(t))))
}

/// Appends the UTF-8 bytes of a string.
fn push_text(out: &mut Vec<u8>, s: &str)
    ensures
        final(out)@ == old(out)@ + utf8(s@),
{
    let mut b = slice_to_vec(s.as_bytes());
    out.append(&mut b);
}

/// Appends one tree entry: mode, space, name, zero byte, hash bytes.
fn push_record(out: &mut Vec<u8>, mode: &str, name: &str, hash: Vec<u8>)
    ensures
        final(out)@ == old(out)@ + tree_record(mode@, name@, hash@),
{
    push_text(out, mode);
    out.push(32u8);
    push_text(out, name);
    out.push(0u8);
    let mut h = hash;
    out.append(&mut h);
    proof {
        assert(final(out)@ =~= old(out)@ + tree_record(mode@, name@, hash@));
    }
}

/// Saves a tree and, first, every tree below it, as tree objects; returns
/// the name of the top one. Every file hash must be hexadecimal text.
pub fn save_tree(store: &mut ObjectStore, tree: &Tree) -> (r: Result<String, String>)
    requires
        tree_hashes_ok(tree.entries@),
    ensures
        r matches Ok(h) ==> h@ == tree_hash(*tree) && final(store)@ == saved_tree(
            old(store)@,
            *tree,
        ),
        r is Ok ==> subtree_facts(tree.entries@) && object_facts(tree_object(*tree)),
        r is Ok ==> final(store).files@.len() > old(store).files@.len() + tree_height(
            tree.entries@,
        ),
        r is Ok,
        r matches Ok(h) ==> object_key_ok(h@),
        r is Ok ==> records_view(final(store).files@) == records_view(old(store).files@)
            + tree_records(*tree),
        final(store).files@.subrange(0, old(store).files@.len() as int) == old(store).files@,
    decreases tree,
{
    let file_mode_text = "100644";
    let dir_mode_text = "40000";
    proof {
        reveal_strlit("100644");
        reveal_strlit("40000");
        reveal_strlit("tree");
    }
    let ghost es = tree.entries@;
    let mut body: Vec<u8> = Vec::new();
    let mut i: usize = 0;
    while i < tree.entries.len()
        invariant
            i <= es.len(),
            es == tree.entries@,
            tree_hashes_ok(es),
            file_mode_text@ == file_mode(),
            dir_mode_text@ == dir_mode(),
            body@ == entries_body(es.take(i as int)),
            store@ == saved_entries(old(store)@, es.take(i as int)),
            subtree_facts(es.take(i as int)),
            store.files@.len() >= old(store).files@.len() + tree_height(es.take(i as int)),
            store.files@.subrange(0, old(store).files@.len() as int) == old(store).files@,
            records_view(store.files@) == records_view(old(store).files@) + entries_records(
                es.take(i as int),
            ),
        decreases es.len() - i,
    {
        proof {
            assert(es.take(i + 1).drop_last() =~= es.take(i as int));
            assert(es.take(i + 1).last() == es[i as int]);
        }
        match &tree.entries[i] {
            TreeEntry::File { name, hash } => {
                assert(valid_hex(hash@));
                let raw = hex_to_bytes(hash.as_str());
                push_record(&mut body, file_mode_text, name.as_str(), raw);
            },
            TreeEntry::Directory { name, children } => {
                assert(tree_hashes_ok(children.entries@));
                let ghost mid = store.files@;
                let sub = match save_tree(store, children) {
                    Ok(h) => h,
                    Err(e) => {
                        proof {
                            assert(store.files@.subrange(0, old(store).files@.len() as int)
                                =~= mid.subrange(0, old(store).files@.len() as int));
                        }
                        return Err(e);
                    },
                };
                proof {
                    assert(store.files@.subrange(0, old(store).files@.len() as int)
                        =~= mid.subrange(0, old(store).files@.len() as int));
                    assert(records_view(store.files@) =~= records_view(old(store).files@)
                        + entries_records(es.take(i + 1)));
                }
                proof {
                    lemma_hex_roundtrip(sha1_spec(tree_object(*children)));
                }
                let raw = hex_to_bytes(sub.as_str());
                push_record(&mut body, dir_mode_text, name.as_str(), raw);
            },
        }
        proof {
            let t1 = es.take(i + 1);
            assert forall|j: int| 0 <= j < t1.len() implies match #[trigger] t1[j] {
                TreeEntry::File { .. } => true,
                TreeEntry::Directory { children, .. } => object_facts(
                    object_bytes(tree_kind(), entries_body(children.entries@)),
                ) && subtree_facts(children.entries@),
            } by {
                if j < i {
                    assert(t1[j] == es.take(i as int)[j]);
                }
            }
        }
        i = i + 1;
    }
    proof {
        assert(es.take(es.len() as int) =~= es);
    }
    let kind = "tree";
    assert(kind@ == tree_kind());
    let data = encode_object(kind, body.as_slice());
    assert(data@ == tree_object(*tree));
    let ghost mid = store.files@;
    let r = store.save_bytes(data.as_slice());
    proof {
        assert(store.files@.subrange(0, old(store).files@.len() as int) =~= mid.subrange(
            0,
            old(store).files@.len() as int,
        ));
        assert(records_view(store.files@) =~= records_view(old(store).files@) + tree_records(
            *tree,
        ));
    }
    r
}


/// Every hash in the list is text that `hex_to_bytes` accepts.
pub open spec fn hashes_valid(es: Seq<(Seq<char>, Seq<char>)>) -> bool {
    forall|i: int| 0 <= i < es.len() ==> valid_hex(#[trigger] es[i].1)
}

proof fn lemma_children_hashes(es: Seq<(Seq<char>, Seq<char>)>, d: Seq<char>)
    requires
        hashes_valid(es),
    ensures
        hashes_valid(children_of(es, d)),
    decreases es.len(),
{
    if es.len() > 0 {
        assert(hashes_valid(es.drop_last())) by {
            assert forall|i: int| 0 <= i < es.drop_last().len() implies valid_hex(
                #[trigger] es.drop_last()[i].1,
            ) by {
                assert(es.drop_last()[i] == es[i]);
            }
        }
        lemma_children_hashes(es.drop_last(), d);
        assert(valid_hex(es[es.len() - 1].1));
    }
}

proof fn lemma_file_hashes(es: Seq<(Seq<char>, Seq<char>)>)
    requires
        hashes_valid(es),
    ensures
        hashes_valid(file_entries(es)),
    decreases es.len(),
{
    if es.len() > 0 {
        assert(hashes_valid(es.drop_last())) by {
            assert forall|i: int| 0 <= i < es.drop_last().len() implies valid_hex(
                #[trigger] es.drop_last()[i].1,
            ) by {
                assert(es.drop_last()[i] == es[i]);
            }
        }
        lemma_file_hashes(es.drop_last());
        assert(valid_hex(es[es.len() - 1].1));
    }
}

/// The tree of paths whose hashes are all hexadecimal text has only such
/// file hashes, at any depth.
pub proof fn lemma_tree_hashes_ok(t: Tree, es: Seq<(Seq<char>, Seq<char>)>)
    requires
        is_tree_of(t, es),
        hashes_valid(es),
    ensures
        tree_hashes_ok(t.entries@),
    decreases t,
{
    let dirs = dir_names(es);
    let files = file_entries(es);
    lemma_file_hashes(es);
    assert forall|i: int| 0 <= i < t.entries@.len() implies match #[trigger] t.entries@[i] {
        TreeEntry::File { hash, .. } => valid_hex(hash@),
        TreeEntry::Directory { children, .. } => tree_hashes_ok(children.entries@),
    } by {
        if i < dirs.len() {
            match t.entries@[i] {
                TreeEntry::Directory { children, .. } => {
                    lemma_children_hashes(es, dirs[i]);
                    lemma_tree_hashes_ok(children, children_of(es, dirs[i]));
                },
                TreeEntry::File { .. } => {},
            }
        } else {
            let j = i - dirs.len();
            assert(files[j] == files[j]);
            assert(valid_hex(files[j].1));
        }
    }
}


// ---------------------------------------------------------------------------
// The same paths build the same tree
// ---------------------------------------------------------------------------

/// Whether two lists of entries hold the same files and directories, by
/// name and hash, in the same order, at every depth.
pub open spec fn same_entries(a: Seq<TreeEntry>, b: Seq<TreeEntry>) -> bool
    decreases a,
{
    &&& a.len() == b.len()
    &&& forall|i: int|
        0 <= i < a.len() ==> match #[trigger] a[i] {
            TreeEntry::File { name, hash } => match b[i] {
                TreeEntry::File { name: n2, hash: h2 } => name@ == n2@ && hash@ == h2@,
                TreeEntry::Directory { .. } => false,
            },
            TreeEntry::Directory { name, children } => match b[i] {
                TreeEntry::Directory { name: n2, children: c2 } => name@ == n2@ && same_entries(
                    children.entries@,
                    c2.entries@,
                ),
                TreeEntry::File { .. } => false,
            },
        }
}

/// Entries that hold the same files and directories have the same tree
/// object body and the same files.
proof fn lemma_same_entries_body(a: Seq<TreeEntry>, b: Seq<TreeEntry>)
    requires
        same_entries(a, b),
    ensures
        entries_body(a) == entries_body(b),
        entries_files(a) == entries_files(b),
    decreases a,
{
    if a.len() > 0 {
        let (pa, pb) = (a.drop_last(), b.drop_last());
        assert(same_entries(pa, pb)) by {
            assert forall|i: int| 0 <= i < pa.len() implies match #[trigger] pa[i] {
                TreeEntry::File { name, hash } => match pb[i] {
                    TreeEntry::File { name: n2, hash: h2 } => name@ == n2@ && hash@ == h2@,
                    TreeEntry::Directory { .. } => false,
                },
                TreeEntry::Directory { name, children } => match pb[i] {
                    TreeEntry::Directory { name: n2, children: c2 } => name@ == n2@
                        && same_entries(children.entries@, c2.entries@),
                    TreeEntry::File { .. } => false,
                },
            } by {
                assert(pa[i] == a[i] && pb[i] == b[i]);
            }
        }
        lemma_same_entries_body(pa, pb);
        let k = a.len() - 1;
        assert(a.last() == a[k] && b.last() == b[k]);
        match a[k] {
            TreeEntry::Directory { children, .. } => {
                match b[k] {
                    TreeEntry::Directory { children: c2, .. } => {
                        lemma_same_entries_body(children.entries@, c2.entries@);
                    },
                    TreeEntry::File { .. } => {},
                }
            },
            TreeEntry::File { .. } => {},
        }
    }
}

/// Building a tree depends on the paths and hashes alone: two trees built
/// from the same list hold the same files and directories, in the same
/// order, and so have the same tree object, the same name and the same
/// files.
pub proof fn law_build_tree_deterministic(t1: Tree, t2: Tree, es: Seq<(Seq<char>, Seq<char>)>)
    requires
        is_tree_of(t1, es),
        is_tree_of(t2, es),
    ensures
        same_entries(t1.entries@, t2.entries@),
        tree_object(t1) == tree_object(t2),
        tree_hash(t1) == tree_hash(t2),
        entries_files(t1.entries@) == entries_files(t2.entries@),
    decreases t1,
{
    let dirs = dir_names(es);
    let files = file_entries(es);
    let (a, b) = (t1.entries@, t2.entries@);
    assert forall|i: int| 0 <= i < a.len() implies match #[trigger] a[i] {
        TreeEntry::File { name, hash } => match b[i] {
            TreeEntry::File { name: n2, hash: h2 } => name@ == n2@ && hash@ == h2@,
            TreeEntry::Directory { .. } => false,
        },
        TreeEntry::Directory { name, children } => match b[i] {
            TreeEntry::Directory { name: n2, children: c2 } => name@ == n2@ && same_entries(
                children.entries@,
                c2.entries@,
            ),
            TreeEntry::File { .. } => false,
        },
    } by {
        if i < dirs.len() {
            match a[i] {
                TreeEntry::Directory { children, .. } => {
                    match b[i] {
                        TreeEntry::Directory { children: c2, .. } => {
                            law_build_tree_deterministic(children, c2, children_of(es, dirs[i]));
                        },
                        TreeEntry::File { .. } => {},
                    }
                },
                TreeEntry::File { .. } => {},
            }
        } else {
            let j = i - dirs.len();
            assert(is_file_entry(a[dirs.len() + j], files[j]));
            assert(is_file_entry(b[dirs.len() + j], files[j]));
        }
    }
    lemma_same_entries_body(a, b);
}


// ---------------------------------------------------------------------------
// No staged file is lost or repeated
// ---------------------------------------------------------------------------

/// Paths below directory `name`, with `name/` put in front.
pub open spec fn under_dir(name: Seq<char>, sub: Seq<(Seq<char>, Seq<char>)>) -> Seq<
    (Seq<char>, Seq<char>),
> {
    sub.map_values(|p: (Seq<char>, Seq<char>)| (name + "/"@ + p.0, p.1))
}

/// The files of entries, at any depth, with their full paths, in order:
/// each directory's files in place of the directory.
pub open spec fn entries_files(es: Seq<TreeEntry>) -> Seq<(Seq<char>, Seq<char>)>
    decreases es,
{
    if es.len() == 0 {
        Seq::empty()
    } else {
        entries_files(es.drop_last()) + match es.last() {
            TreeEntry::File { name, hash } => seq![(name@, hash@)],
            TreeEntry::Directory { name, children } => under_dir(
                name@,
                entries_files(children.entries@),
            ),
        }
    }
}

/// How many times a path and hash occur in a list.
pub open spec fn occurrences(es: Seq<(Seq<char>, Seq<char>)>, p: (Seq<char>, Seq<char>)) -> nat
    decreases es.len(),
{
    if es.len() == 0 {
        0
    } else {
        occurrences(es.drop_last(), p) + if es.last() == p {
            1nat
        } else {
            0nat
        }
    }
}

proof fn lemma_occurrences_concat(
    a: Seq<(Seq<char>, Seq<char>)>,
    b: Seq<(Seq<char>, Seq<char>)>,
    p: (Seq<char>, Seq<char>),
)
    ensures
        occurrences(a + b, p) == occurrences(a, p) + occurrences(b, p),
    decreases b.len(),
{
    if b.len() == 0 {
        assert(a + b =~= a);
    } else {
        assert((a + b).drop_last() =~= a + b.drop_last());
        assert((a + b).last() == b.last());
        lemma_occurrences_concat(a, b.drop_last(), p);
    }
}

proof fn lemma_entries_files_concat(a: Seq<TreeEntry>, b: Seq<TreeEntry>)
    ensures
        entries_files(a + b) == entries_files(a) + entries_files(b),
    decreases b.len(),
{
    if b.len() == 0 {
        assert(a + b =~= a);
        assert(entries_files(a) + entries_files(b) =~= entries_files(a));
    } else {
        assert((a + b).drop_last() =~= a + b.drop_last());
        assert((a + b).last() == b.last());
        lemma_entries_files_concat(a, b.drop_last());
        let tail = match b.last() {
            TreeEntry::File { name, hash } => seq![(name@, hash@)],
            TreeEntry::Directory { name, children } => under_dir(
                name@,
                entries_files(children.entries@),
            ),
        };
        assert(entries_files(a + b) =~= entries_files(a) + entries_files(b.drop_last()) + tail);
        assert(entries_files(b) =~= entries_files(b.drop_last()) + tail);
    }
}

proof fn lemma_files_part(fs: Seq<TreeEntry>, files: Seq<(Seq<char>, Seq<char>)>)
    requires
        fs.len() == files.len(),
        forall|j: int| 0 <= j < files.len() ==> is_file_entry(fs[j], #[trigger] files[j]),
    ensures
        entries_files(fs) == files,
    decreases fs.len(),
{
    if fs.len() > 0 {
        assert forall|j: int| 0 <= j < files.drop_last().len() implies is_file_entry(
            fs.drop_last()[j],
            #[trigger] files.drop_last()[j],
        ) by {
            assert(files.drop_last()[j] == files[j]);
            assert(fs.drop_last()[j] == fs[j]);
        }
        assert(is_file_entry(fs[fs.len() - 1], files[files.len() - 1]));
        lemma_files_part(fs.drop_last(), files.drop_last());
        assert(files[files.len() - 1] == files.last());
        assert(entries_files(fs) =~= files);
    } else {
        assert(files =~= Seq::<(Seq<char>, Seq<char>)>::empty());
    }
}

/// A path with a `/` is its first segment, `/`, and the rest.
proof fn lemma_segment_split(path: Seq<char>)
    requires
        first_segment(path) is Some,
    ensures
        path == first_segment(path)->0 + "/"@ + after_first_segment(path),
        !first_segment(path)->0.contains('/'),
{
    reveal_strlit("/");
    lemma_first_index(path, '/');
    let i = first_index(path, '/')->0;
    assert(path =~= path.subrange(0, i) + "/"@ + path.subrange(i + 1, path.len() as int));
    let d = path.subrange(0, i);
    if d.contains('/') {
        let k = choose|k: int| 0 <= k < d.len() && d[k] == '/';
        assert(path[k] == '/');
    }
}

/// The first segment of `d/x`, for `d` without `/`, is `d`, and the rest is
/// `x`.
proof fn lemma_segment_join(d: Seq<char>, x: Seq<char>)
    requires
        !d.contains('/'),
    ensures
        first_segment(d + "/"@ + x) == Some(d),
        after_first_segment(d + "/"@ + x) == x,
{
    reveal_strlit("/");
    let path = d + "/"@ + x;
    assert(path =~= d + (seq!['/'] + x));
    lemma_first_index_after(d, seq!['/'] + x, '/');
    assert(first_index(seq!['/'] + x, '/') == Some(0int));
    assert(path.subrange(0, d.len() as int) =~= d);
    assert(path.subrange(d.len() as int + 1, path.len() as int) =~= x);
}

proof fn lemma_occurrences_under_dir(
    d: Seq<char>,
    xs: Seq<(Seq<char>, Seq<char>)>,
    p: (Seq<char>, Seq<char>),
)
    requires
        !d.contains('/'),
    ensures
        occurrences(under_dir(d, xs), p) == if first_segment(p.0) == Some(d) {
            occurrences(xs, (after_first_segment(p.0), p.1))
        } else {
            0
        },
    decreases xs.len(),
{
    if xs.len() > 0 {
        lemma_occurrences_under_dir(d, xs.drop_last(), p);
        assert(under_dir(d, xs).drop_last() =~= under_dir(d, xs.drop_last()));
        let x = xs.last();
        assert(under_dir(d, xs).last() == (d + "/"@ + x.0, x.1));
        lemma_segment_join(d, x.0);
        if first_segment(p.0) == Some(d) {
            lemma_segment_split(p.0);
        }
    }
}

proof fn lemma_occurrences_plain(es: Seq<(Seq<char>, Seq<char>)>, p: (Seq<char>, Seq<char>))
    requires
        first_segment(p.0) is None,
    ensures
        occurrences(es, p) == occurrences(file_entries(es), p),
    decreases es.len(),
{
    if es.len() > 0 {
        lemma_occurrences_plain(es.drop_last(), p);
        let fe = file_entries(es);
        if first_segment(es.last().0) is None {
            assert(fe.drop_last() =~= file_entries(es.drop_last()));
        }
    }
}

proof fn lemma_occurrences_nested(
    es: Seq<(Seq<char>, Seq<char>)>,
    p: (Seq<char>, Seq<char>),
    d: Seq<char>,
)
    requires
        first_segment(p.0) == Some(d),
    ensures
        occurrences(es, p) == occurrences(children_of(es, d), (after_first_segment(p.0), p.1)),
        occurrences(file_entries(es), p) == 0,
    decreases es.len(),
{
    if es.len() > 0 {
        lemma_occurrences_nested(es.drop_last(), p, d);
        let e = es.last();
        let c = children_of(es, d);
        let fe = file_entries(es);
        lemma_segment_split(p.0);
        if first_segment(e.0) == Some(d) {
            assert(c.drop_last() =~= children_of(es.drop_last(), d));
            lemma_segment_split(e.0);
        }
        if first_segment(e.0) is None {
            assert(fe.drop_last() =~= file_entries(es.drop_last()));
            assert(e != p);
        }
    }
}

proof fn lemma_dir_names_plain(es: Seq<(Seq<char>, Seq<char>)>)
    ensures
        forall|k: int|
            0 <= k < dir_names(es).len() ==> !(#[trigger] dir_names(es)[k]).contains('/'),
        forall|i: int, j: int|
            0 <= i < j < dir_names(es).len() ==> dir_names(es)[i] != dir_names(es)[j],
    decreases es.len(),
{
    if es.len() > 0 {
        lemma_dir_names_plain(es.drop_last());
        let prev = dir_names(es.drop_last());
        match first_segment(es.last().0) {
            Some(d) => {
                lemma_segment_split(es.last().0);
                if !prev.contains(d) {
                    let ds = prev.push(d);
                    assert forall|i: int, j: int|
                        0 <= i < j < ds.len() implies ds[i] != ds[j] by {
                        if j == ds.len() - 1 {
                            assert(ds[i] == prev[i]);
                        }
                    }
                }
            },
            None => {},
        }
    }
}

proof fn lemma_children_absent(es: Seq<(Seq<char>, Seq<char>)>, d: Seq<char>)
    requires
        !dir_names(es).contains(d),
    ensures
        children_of(es, d).len() == 0,
    decreases es.len(),
{
    if es.len() > 0 {
        let prev = dir_names(es.drop_last());
        assert(!prev.contains(d)) by {
            if prev.contains(d) {
                let k = choose|k: int| 0 <= k < prev.len() && prev[k] == d;
                match first_segment(es.last().0) {
                    Some(e) => {
                        if !prev.contains(e) {
                            assert(prev.push(e)[k] == d);
                        }
                    },
                    None => {},
                }
            }
        }
        lemma_children_absent(es.drop_last(), d);
        if first_segment(es.last().0) == Some(d) {
            assert(prev.contains(d) || dir_names(es).contains(d)) by {
                if !prev.contains(d) {
                    assert(dir_names(es) == prev.push(d));
                    assert(dir_names(es)[prev.len() as int] == d);
                }
            }
        }
    }
}

/// Every staged path and hash occurs in the built tree's files, with its
/// full path, exactly as often as in the list it was built from: no file
/// is lost or repeated.
pub proof fn law_tree_keeps_files(t: Tree, es: Seq<(Seq<char>, Seq<char>)>)
    requires
        is_tree_of(t, es),
    ensures
        forall|p: (Seq<char>, Seq<char>)|
            occurrences(entries_files(t.entries@), p) == #[trigger] occurrences(es, p),
    decreases t,
{
    let dirs = dir_names(es);
    let files = file_entries(es);
    let nd = dirs.len() as int;
    let all = t.entries@;
    let dpart = all.subrange(0, nd);
    let fpart = all.subrange(nd, all.len() as int);
    assert(all =~= dpart + fpart);
    lemma_entries_files_concat(dpart, fpart);
    assert forall|j: int| 0 <= j < files.len() implies is_file_entry(fpart[j], #[trigger] files[j]) by {
        assert(fpart[j] == all[nd + j]);
    }
    lemma_files_part(fpart, files);
    lemma_dir_names_plain(es);
    // the trees below hold the files below each directory
    assert forall|k: int| 0 <= k < nd implies forall|q: (Seq<char>, Seq<char>)|
        occurrences(entries_files((#[trigger] dpart[k])->children.entries@), q) == occurrences(
            children_of(es, dirs[k]),
            q,
        ) by {
        assert(dpart[k] == all[k]);
        match all[k] {
            TreeEntry::Directory { children, .. } => {
                law_tree_keeps_files(children, children_of(es, dirs[k]));
            },
            TreeEntry::File { .. } => {},
        }
    }
    assert forall|p: (Seq<char>, Seq<char>)|
        occurrences(entries_files(t.entries@), p) == #[trigger] occurrences(es, p) by {
        lemma_occurrences_concat(entries_files(dpart), files, p);
        lemma_dir_part(dpart, dirs, es, p, nd);
        assert(dpart.subrange(0, nd) =~= dpart);
        assert(dirs.subrange(0, nd) =~= dirs);
        assert(entries_files(t.entries@) == entries_files(dpart) + files);
        match first_segment(p.0) {
            None => {
                lemma_occurrences_plain(es, p);
            },
            Some(d) => {
                lemma_occurrences_nested(es, p, d);
                if !dirs.contains(d) {
                    lemma_children_absent(es, d);
                    assert(children_of(es, d) =~= Seq::<(Seq<char>, Seq<char>)>::empty());
                }
            },
        }
    }
}

/// The files of the first `k` directory entries, counted for one path and
/// hash: those under the one directory named by the path's first segment.
proof fn lemma_dir_part(
    dpart: Seq<TreeEntry>,
    dirs: Seq<Seq<char>>,
    es: Seq<(Seq<char>, Seq<char>)>,
    p: (Seq<char>, Seq<char>),
    k: int,
)
    requires
        0 <= k <= dpart.len(),
        dpart.len() == dirs.len(),
        forall|i: int| 0 <= i < dirs.len() ==> !(#[trigger] dirs[i]).contains('/'),
        forall|i: int, j: int| 0 <= i < j < dirs.len() ==> dirs[i] != dirs[j],
        forall|i: int|
            0 <= i < dpart.len() ==> (#[trigger] dpart[i] matches TreeEntry::Directory {
                name,
                ..
            } && name@ == dirs[i]),
        forall|i: int|
            0 <= i < dpart.len() ==> forall|q: (Seq<char>, Seq<char>)|
                occurrences(entries_files((#[trigger] dpart[i])->children.entries@), q)
                    == occurrences(children_of(es, dirs[i]), q),
    ensures
        occurrences(entries_files(dpart.subrange(0, k)), p) == match first_segment(p.0) {
            Some(d) => if dirs.subrange(0, k).contains(d) {
                occurrences(children_of(es, d), (after_first_segment(p.0), p.1))
            } else {
                0
            },
            None => 0,
        },
    decreases k,
{
    if k == 0 {
        assert(dpart.subrange(0, 0) =~= Seq::<TreeEntry>::empty());
    } else {
        lemma_dir_part(dpart, dirs, es, p, k - 1);
        let pre = dpart.subrange(0, k);
        assert(pre.drop_last() =~= dpart.subrange(0, k - 1));
        assert(pre.last() == dpart[k - 1]);
        match dpart[k - 1] {
            TreeEntry::Directory { name, children } => {
                let sub = entries_files(children.entries@);
                assert(entries_files(pre) == entries_files(dpart.subrange(0, k - 1)) + under_dir(
                    name@,
                    sub,
                ));
                lemma_occurrences_concat(entries_files(dpart.subrange(0, k - 1)), under_dir(name@, sub), p);
                lemma_occurrences_under_dir(name@, sub, p);
                let ds = dirs.subrange(0, k);
                let pds = dirs.subrange(0, k - 1);
                assert(ds.drop_last() =~= pds);
                match first_segment(p.0) {
                    Some(d) => {
                        if d == dirs[k - 1] {
                            assert(ds[k - 1] == d);
                            assert(!pds.contains(d)) by {
                                if pds.contains(d) {
                                    let i = choose|i: int| 0 <= i < pds.len() && pds[i] == d;
                                    assert(dirs[i] == dirs[k - 1]);
                                }
                            }
                        } else {
                            assert(ds.contains(d) == pds.contains(d)) by {
                                if ds.contains(d) {
                                    let i = choose|i: int| 0 <= i < ds.len() && ds[i] == d;
                                    assert(pds[i] == d);
                                }
                                if pds.contains(d) {
                                    let i = choose|i: int| 0 <= i < pds.len() && pds[i] == d;
                                    assert(ds[i] == d);
                                }
                            }
                        }
                    },
                    None => {},
                }
            },
            TreeEntry::File { .. } => {},
        }
    }
}


// ---------------------------------------------------------------------------
// Where saved trees end up in the store
// ---------------------------------------------------------------------------

/// Whether `s` is a tree below one of the entries, at any depth.
pub open spec fn within_entries(s: Tree, es: Seq<TreeEntry>) -> bool
    decreases es,
{
    if es.len() == 0 {
        false
    } else {
        within_entries(s, es.drop_last()) || match es.last() {
            TreeEntry::Directory { children, .. } => s == children || within_entries(
                s,
                children.entries@,
            ),
            TreeEntry::File { .. } => false,
        }
    }
}

/// Whether `s` is `t` or a tree below it.
pub open spec fn within(s: Tree, t: Tree) -> bool {
    s == t || within_entries(s, t.entries@)
}

/// Trees below the entries that share a name are the same object: no two
/// different tree objects below them have the same SHA-1.
pub open spec fn entries_no_name_collision(es: Seq<TreeEntry>) -> bool {
    forall|s1: Tree, s2: Tree|
        #![trigger within_entries(s1, es), within_entries(s2, es)]
        within_entries(s1, es) && within_entries(s2, es) && tree_hash(s1) == tree_hash(s2)
            ==> tree_object(s1) == tree_object(s2)
}

/// A tree and the trees below it that share a name are the same object.
pub open spec fn no_name_collision(t: Tree) -> bool {
    forall|s1: Tree, s2: Tree|
        #![trigger within(s1, t), within(s2, t)]
        within(s1, t) && within(s2, t) && tree_hash(s1) == tree_hash(s2) ==> tree_object(s1)
            == tree_object(s2)
}

proof fn lemma_within_prefix(s: Tree, es: Seq<TreeEntry>)
    requires
        es.len() > 0,
        within_entries(s, es.drop_last()),
    ensures
        within_entries(s, es),
{
}

/// Saving the trees below entries keeps the file of an object whose name no
/// other object below them shares.
proof fn lemma_saved_keeps(m: Map<Seq<char>, Seq<u8>>, es: Seq<TreeEntry>, target: Tree)
    requires
        m.dom().contains(tree_hash(target)),
        m[tree_hash(target)] == zlib_deflate(tree_object(target)),
        forall|s: Tree|
            #[trigger] within_entries(s, es) && tree_hash(s) == tree_hash(target) ==> tree_object(s)
                == tree_object(target),
    ensures
        saved_entries(m, es).dom().contains(tree_hash(target)),
        saved_entries(m, es)[tree_hash(target)] == zlib_deflate(tree_object(target)),
    decreases es,
{
    if es.len() > 0 {
        let pre = es.drop_last();
        assert forall|s: Tree|
            #[trigger] within_entries(s, pre) && tree_hash(s) == tree_hash(target) implies tree_object(
            s,
        ) == tree_object(target) by {
            lemma_within_prefix(s, es);
        }
        lemma_saved_keeps(m, pre, target);
        let m1 = saved_entries(m, pre);
        match es.last() {
            TreeEntry::Directory { children, .. } => {
                assert forall|s: Tree|
                    #[trigger] within_entries(s, children.entries@) && tree_hash(s) == tree_hash(
                        target,
                    ) implies tree_object(s) == tree_object(target) by {
                    assert(within_entries(s, es));
                }
                lemma_saved_keeps(m1, children.entries@, target);
                assert(within_entries(children, es));
            },
            TreeEntry::File { .. } => {},
        }
    }
}

/// After saving the trees below entries, each of them is stored under its
/// name, when no two of them share a name.
proof fn lemma_saved_entries_hold(m: Map<Seq<char>, Seq<u8>>, es: Seq<TreeEntry>, s: Tree)
    requires
        entries_no_name_collision(es),
        within_entries(s, es),
    ensures
        saved_entries(m, es).dom().contains(tree_hash(s)),
        saved_entries(m, es)[tree_hash(s)] == zlib_deflate(tree_object(s)),
    decreases es,
{
    let pre = es.drop_last();
    assert(entries_no_name_collision(pre)) by {
        assert forall|s1: Tree, s2: Tree|
            within_entries(s1, pre) && within_entries(s2, pre) && tree_hash(s1) == tree_hash(s2)
                implies tree_object(s1) == tree_object(s2) by {
            lemma_within_prefix(s1, es);
            lemma_within_prefix(s2, es);
        }
    }
    let m1 = saved_entries(m, pre);
    match es.last() {
        TreeEntry::Directory { children, .. } => {
            let ces = children.entries@;
            assert(entries_no_name_collision(ces)) by {
                assert forall|s1: Tree, s2: Tree|
                    within_entries(s1, ces) && within_entries(s2, ces) && tree_hash(s1) == tree_hash(
                        s2,
                    ) implies tree_object(s1) == tree_object(s2) by {
                    assert(within_entries(s1, es));
                    assert(within_entries(s2, es));
                }
            }
            assert(within_entries(children, es));
            if s == children {
            } else if within_entries(s, ces) {
                lemma_saved_entries_hold(m1, ces, s);
                assert(within_entries(s, es));
            } else {
                assert(within_entries(s, pre));
                lemma_saved_entries_hold(m, pre, s);
                assert forall|s2: Tree|
                    #[trigger] within_entries(s2, ces) && tree_hash(s2) == tree_hash(s)
                        implies tree_object(s2) == tree_object(s) by {
                    assert(within_entries(s2, es));
                }
                lemma_saved_keeps(m1, ces, s);
            }
        },
        TreeEntry::File { .. } => {
            lemma_saved_entries_hold(m, pre, s);
        },
    }
}

/// After saving a tree, it and every tree below it are stored under their
/// names, when no two of them share a name.
pub proof fn lemma_saved_tree_holds(m: Map<Seq<char>, Seq<u8>>, t: Tree, s: Tree)
    requires
        no_name_collision(t),
        within(s, t),
    ensures
        saved_tree(m, t).dom().contains(tree_hash(s)),
        saved_tree(m, t)[tree_hash(s)] == zlib_deflate(tree_object(s)),
{
    if s != t {
        assert(entries_no_name_collision(t.entries@)) by {
            assert forall|s1: Tree, s2: Tree|
                within_entries(s1, t.entries@) && within_entries(s2, t.entries@) && tree_hash(s1)
                    == tree_hash(s2) implies tree_object(s1) == tree_object(s2) by {
                assert(within(s1, t));
                assert(within(s2, t));
            }
        }
        lemma_saved_entries_hold(m, t.entries@, s);
        assert(within(t, t));
    }
}

} // verus!
