//! Reading objects back out of the store: tree listings, the files under a
//! tree, and the tree that a commit records.
use vstd::prelude::*;
use vstd::slice::slice_subrange;
use vstd::utf8::*;

use crate::commit::tree::{
    subtree_facts, dir_mode, entries_body, file_mode, tree_kind, tree_record, Tree, TreeEntry,
};
use crate::commit::tree::{
    after_first_segment, children_of, dir_names, file_entries, first_segment, is_file_entry,
    is_tree_of, entries_files, lemma_saved_tree_holds, no_name_collision, object_facts, pairs_view, saved_tree,
    tree_hash, tree_height, tree_object, under_dir, within_entries,
};
use crate::object::store::{
    bytes_to_hex, hex_of, lemma_hex_key_ok, load_error, lemma_lower_hex, lemma_object_roundtrip, lower_hex40,
    object_key_ok, object_bytes, plain_kind, read_object, sha1_spec, unhex, valid_hex, zlib_deflate,
    ObjectStore,
};
use crate::object::commit::{tree_hash_in_text, tree_line_hash};
use crate::text::{
    find_byte, first_index, lines, lemma_first_index, lemma_first_index_after, lemma_utf8_lacks_ascii,
    utf8, utf8_error, utf8_to_string,
};

verus! {

broadcast use vstd::utf8::encode_utf8_valid_utf8, vstd::utf8::encode_utf8_decode_utf8;

/// One line of a tree listing: the mode, the name, and the hash as text.
pub struct TreeEntryDisplay {
    pub mode: String,
    pub name: String,
    pub hash_hex: String,
}

/// A listing entry as the text it holds.
pub open spec fn display_view(d: TreeEntryDisplay) -> (Seq<char>, Seq<char>, Seq<char>) {
    (d.mode@, d.name@, d.hash_hex@)
}

/// A listing as the text it holds.
pub open spec fn displays_view(v: Seq<TreeEntryDisplay>) -> Seq<(Seq<char>, Seq<char>, Seq<char>)> {
    v.map_values(|d: TreeEntryDisplay| display_view(d))
}

/// The entries of a tree body: mode up to a space, name up to a zero byte,
/// then twenty bytes of hash, again and again to the end; nothing when the
/// body does not split that way or a mode or name is not UTF-8.
pub open spec fn parse_tree_spec(b: Seq<u8>) -> Option<Seq<(Seq<char>, Seq<char>, Seq<char>)>>
    decreases b.len(),
{
    if b.len() == 0 {
        Some(Seq::empty())
    } else {
        match first_index(b, 32u8) {
            None => None,
            Some(m) => {
                let rest = b.subrange(m + 1, b.len() as int);
                match first_index(rest, 0u8) {
                    None => None,
                    Some(n) => {
                        let end = m + n + 22;
                        if !valid_utf8(b.subrange(0, m)) || !valid_utf8(rest.subrange(0, n)) || end
                            > b.len() {
                            None
                        } else {
                            proof {
                                lemma_first_index(b, 32u8);
                                lemma_first_index(rest, 0u8);
                            }
                            match parse_tree_spec(b.subrange(end, b.len() as int)) {
                                None => None,
                                Some(t) => Some(
                                    seq![
                                        (
                                            decode_utf8(b.subrange(0, m)),
                                            decode_utf8(rest.subrange(0, n)),
                                            hex_of(b.subrange(end - 20, end)),
                                        ),
                                    ] + t,
                                ),
                            }
                        }
                    },
                }
            },
        }
    }
}

/// The error that splitting a malformed tree body gives, checking each entry
/// in turn: a missing space or zero byte, or too few hash bytes, is a format
/// error; a mode or name that is not UTF-8 gives std's message after a
/// prefix. Nothing when the body splits.
pub open spec fn tree_body_error(b: Seq<u8>) -> Option<Seq<char>>
    decreases b.len(),
{
    if b.len() == 0 {
        None
    } else {
        match first_index(b, 32u8) {
            None => Some("invalid tree entry format"@),
            Some(m) => if !valid_utf8(b.subrange(0, m)) {
                Some("invalid tree entry mode: "@ + utf8_error(b.subrange(0, m)))
            } else {
                let rest = b.subrange(m + 1, b.len() as int);
                match first_index(rest, 0u8) {
                    None => Some("invalid tree entry format"@),
                    Some(n) => if !valid_utf8(rest.subrange(0, n)) {
                        Some("invalid tree entry name: "@ + utf8_error(rest.subrange(0, n)))
                    } else if m + n + 22 > b.len() {
                        Some("invalid tree entry format"@)
                    } else {
                        proof {
                            lemma_first_index(b, 32u8);
                            lemma_first_index(rest, 0u8);
                        }
                        tree_body_error(b.subrange(m + n + 22, b.len() as int))
                    },
                }
            },
        }
    }
}

/// Splits the body of a tree object into its entries.
pub fn parse_tree_body(body: &[u8]) -> (r: Result<Vec<TreeEntryDisplay>, String>)
    ensures
        r is Ok <==> parse_tree_spec(body@) is Some,
        r matches Ok(v) ==> parse_tree_spec(body@) == Some(displays_view(v@)),
        r matches Err(e) ==> tree_body_error(body@) == Some(e@),
{
    proof {
        reveal_strlit("invalid tree entry format");
        reveal_strlit("invalid tree entry mode: ");
        reveal_strlit("invalid tree entry name: ");
    }
    let ghost b = body@;
    let len = body.len();
    let mut entries: Vec<TreeEntryDisplay> = Vec::new();
    let mut i: usize = 0;
    proof {
        assert(b.subrange(0, len as int) =~= b);
        assert(displays_view(entries@) =~= Seq::empty());
        assert(Seq::<(Seq<char>, Seq<char>, Seq<char>)>::empty() + parse_tree_spec(b)->0 =~= parse_tree_spec(b)->0);
    }
    while i < len
        invariant
            i <= len,
            len == b.len(),
            b == body@,
            parse_tree_spec(b) == (match parse_tree_spec(b.subrange(i as int, len as int)) {
                Some(t) => Some(displays_view(entries@) + t),
                None => None,
            }),
            tree_body_error(b) == tree_body_error(b.subrange(i as int, len as int)),
        decreases len - i,
    {
        let ghost c = b.subrange(i as int, len as int);
        proof {
            lemma_first_index(c, 32u8);
        }
        let mode_end = match find_byte(body, 32u8, i) {
            Some(p) => p,
            None => {
                return Err(String::from_str("invalid tree entry format"));
            },
        };
        let ghost m = mode_end - i;
        let ghost rest = c.subrange(m + 1, c.len() as int);
        proof {
            assert(rest =~= b.subrange(mode_end + 1, len as int));
            lemma_first_index(rest, 0u8);
        }
        let mode = match utf8_to_string(slice_subrange(body, i, mode_end)) {
            Ok(s) => s,
            Err(e) => {
                assert(c.subrange(0, m) =~= b.subrange(i as int, mode_end as int));
                let mut msg = String::from_str("invalid tree entry mode: ");
                msg.append(e.as_str());
                return Err(msg);
            },
        };
        assert(c.subrange(0, m) =~= b.subrange(i as int, mode_end as int));
        let start = mode_end + 1;
        let name_end = match find_byte(body, 0u8, start) {
            Some(p) => p,
            None => {
                return Err(String::from_str("invalid tree entry format"));
            },
        };
        let ghost n = name_end - start;
        assert(rest.subrange(0, n) =~= b.subrange(start as int, name_end as int));
        let name = match utf8_to_string(slice_subrange(body, start, name_end)) {
            Ok(s) => s,
            Err(e) => {
                let mut msg = String::from_str("invalid tree entry name: ");
                msg.append(e.as_str());
                return Err(msg);
            },
        };
        let hash_start = name_end + 1;
        if hash_start > len || len - hash_start < 20 {
            return Err(String::from_str("invalid tree entry format"));
        }
        let hash_end = hash_start + 20;
        let hash_hex = bytes_to_hex(slice_subrange(body, hash_start, hash_end));
        proof {
            let end = m + n + 22;
            assert(end == hash_end - i);
            assert(c.subrange(end - 20, end) =~= b.subrange(hash_start as int, hash_end as int));
            assert(c.subrange(end, c.len() as int) =~= b.subrange(hash_end as int, len as int));
        }
        let ghost before = displays_view(entries@);
        entries.push(TreeEntryDisplay { mode, name, hash_hex });
        proof {
            let item = displays_view(entries@).last();
            assert(displays_view(entries@) =~= before.push(item));
            match parse_tree_spec(b.subrange(hash_end as int, len as int)) {
                Some(t) => {
                    assert(before + (seq![item] + t) =~= displays_view(entries@) + t);
                },
                None => {},
            }
        }
        i = hash_end;
    }
    proof {
        assert(b.subrange(len as int, len as int) =~= Seq::<u8>::empty());
        assert(displays_view(entries@) + Seq::<(Seq<char>, Seq<char>, Seq<char>)>::empty()
            =~= displays_view(entries@));
    }
    Ok(entries)
}


// ---------------------------------------------------------------------------
// Reading back what was written
// ---------------------------------------------------------------------------

/// The body of a tree object made of these entries, given as mode, name and
/// raw hash, in order.
pub open spec fn records_bytes(rs: Seq<(Seq<char>, Seq<char>, Seq<u8>)>) -> Seq<u8>
    decreases rs.len(),
{
    if rs.len() == 0 {
        Seq::empty()
    } else {
        tree_record(rs[0].0, rs[0].1, rs[0].2) + records_bytes(rs.drop_first())
    }
}

/// An entry that reads back unchanged: no space in the mode, no zero
/// character in the name, and a hash of twenty bytes.
pub open spec fn record_ok(r: (Seq<char>, Seq<char>, Seq<u8>)) -> bool {
    !r.0.contains(' ') && !r.1.contains('\0') && r.2.len() == 20
}

/// How an entry reads back: the hash becomes its hexadecimal text.
pub open spec fn record_display(r: (Seq<char>, Seq<char>, Seq<u8>)) -> (Seq<char>, Seq<char>, Seq<char>) {
    (r.0, r.1, hex_of(r.2))
}

/// Splitting one well-formed entry off the front of a tree body.
proof fn lemma_parse_record(mode: Seq<char>, name: Seq<char>, hash: Seq<u8>, tail: Seq<u8>)
    requires
        record_ok((mode, name, hash)),
    ensures
        parse_tree_spec(tree_record(mode, name, hash) + tail) == (match parse_tree_spec(tail) {
            Some(t) => Some(seq![record_display((mode, name, hash))] + t),
            None => None,
        }),
{
    let b = tree_record(mode, name, hash) + tail;
    let um = utf8(mode);
    let un = utf8(name);
    let after_mode = seq![32u8] + un + seq![0u8] + hash + tail;
    let after_name = seq![0u8] + hash + tail;
    assert(b =~= um + after_mode);
    lemma_utf8_lacks_ascii(mode, ' ');
    lemma_first_index_after(um, after_mode, 32u8);
    assert(first_index(after_mode, 32u8) == Some(0int));
    let m = um.len() as int;
    assert(first_index(b, 32u8) == Some(m));
    let rest = b.subrange(m + 1, b.len() as int);
    assert(rest =~= un + after_name);
    lemma_utf8_lacks_ascii(name, '\0');
    lemma_first_index_after(un, after_name, 0u8);
    assert(first_index(after_name, 0u8) == Some(0int));
    let n = un.len() as int;
    assert(first_index(rest, 0u8) == Some(n));
    assert(b.subrange(0, m) =~= um);
    assert(rest.subrange(0, n) =~= un);
    let end = m + n + 22;
    assert(b.subrange(end - 20, end) =~= hash);
    assert(b.subrange(end, b.len() as int) =~= tail);
}

/// Splitting the body of a tree object gives back its entries, each hash as
/// hexadecimal text.
pub proof fn lemma_tree_body_roundtrip(rs: Seq<(Seq<char>, Seq<char>, Seq<u8>)>)
    requires
        forall|i: int| 0 <= i < rs.len() ==> record_ok(#[trigger] rs[i]),
    ensures
        parse_tree_spec(records_bytes(rs)) == Some(rs.map_values(|r| record_display(r))),
    decreases rs.len(),
{
    if rs.len() == 0 {
        assert(rs.map_values(|r| record_display(r)) =~= Seq::empty());
    } else {
        let r0 = rs[0];
        assert(record_ok(r0));
        assert forall|i: int| 0 <= i < rs.drop_first().len() implies record_ok(
            #[trigger] rs.drop_first()[i],
        ) by {
            assert(rs.drop_first()[i] == rs[i + 1]);
        }
        lemma_tree_body_roundtrip(rs.drop_first());
        lemma_parse_record(r0.0, r0.1, r0.2, records_bytes(rs.drop_first()));
        assert(rs.map_values(|r| record_display(r)) =~= seq![record_display(r0)]
            + rs.drop_first().map_values(|r| record_display(r)));
    }
}

proof fn lemma_records_bytes_push(
    rs: Seq<(Seq<char>, Seq<char>, Seq<u8>)>,
    r: (Seq<char>, Seq<char>, Seq<u8>),
)
    ensures
        records_bytes(rs.push(r)) == records_bytes(rs) + tree_record(r.0, r.1, r.2),
    decreases rs.len(),
{
    if rs.len() == 0 {
        assert(rs.push(r).drop_first() =~= Seq::<(Seq<char>, Seq<char>, Seq<u8>)>::empty());
        assert(rs.push(r)[0] == r);
        assert(records_bytes(rs.push(r).drop_first()) =~= Seq::<u8>::empty());
        assert(records_bytes(rs) =~= Seq::<u8>::empty());
        assert(records_bytes(rs.push(r)) =~= records_bytes(rs) + tree_record(r.0, r.1, r.2));
    } else {
        assert(rs.push(r).drop_first() =~= rs.drop_first().push(r));
        assert(rs.push(r)[0] == rs[0]);
        lemma_records_bytes_push(rs.drop_first(), r);
        let a = tree_record(rs[0].0, rs[0].1, rs[0].2);
        assert(records_bytes(rs.push(r)) == a + records_bytes(rs.drop_first().push(r)));
        assert(records_bytes(rs) == a + records_bytes(rs.drop_first()));
        assert(records_bytes(rs.push(r)) =~= records_bytes(rs) + tree_record(r.0, r.1, r.2));
    }
}

/// The mode, name and raw hash that a tree object records for an entry.
pub open spec fn entry_record(e: TreeEntry) -> (Seq<char>, Seq<char>, Seq<u8>) {
    match e {
        TreeEntry::File { name, hash } => (file_mode(), name@, unhex(hash@)),
        TreeEntry::Directory { name, children } => (
            dir_mode(),
            name@,
            sha1_spec(object_bytes(tree_kind(), entries_body(children.entries@))),
        ),
    }
}

/// The body of a tree object is its entries' records, in order.
pub proof fn lemma_entries_body_records(es: Seq<TreeEntry>)
    ensures
        entries_body(es) == records_bytes(es.map_values(|e: TreeEntry| entry_record(e))),
    decreases es.len(),
{
    if es.len() > 0 {
        lemma_entries_body_records(es.drop_last());
        let rs = es.drop_last().map_values(|e: TreeEntry| entry_record(e));
        assert(es.map_values(|e: TreeEntry| entry_record(e)) =~= rs.push(entry_record(es.last())));
        lemma_records_bytes_push(rs, entry_record(es.last()));
    } else {
        assert(es.map_values(|e: TreeEntry| entry_record(e)) =~= Seq::empty());
    }
}

/// Entries whose tree object lists back as they are: no zero character in a
/// name, and file hashes of forty hexadecimal characters.
pub open spec fn entries_listable(es: Seq<TreeEntry>) -> bool {
    forall|i: int|
        0 <= i < es.len() ==> match #[trigger] es[i] {
            TreeEntry::File { name, hash } => !name@.contains('\0') && valid_hex(hash@)
                && hash@.len() == 40,
            TreeEntry::Directory { name, .. } => !name@.contains('\0'),
        }
}

/// Listing a saved tree object gives back its entries: each file with mode
/// 100644 and its hash text (in lower case), each directory with mode 40000
/// and the name of the tree object below it.
pub proof fn law_tree_listing(t: Tree)
    requires
        entries_listable(t.entries@),
        subtree_facts(t.entries@),
    ensures
        parse_tree_spec(entries_body(t.entries@)) == Some(
            t.entries@.map_values(|e: TreeEntry| record_display(entry_record(e))),
        ),
{
    let es = t.entries@;
    let rs = es.map_values(|e: TreeEntry| entry_record(e));
    lemma_entries_body_records(es);
    assert forall|i: int| 0 <= i < rs.len() implies record_ok(#[trigger] rs[i]) by {
        assert(rs[i] == entry_record(es[i]));
        assert(!file_mode().contains(' ')) by {
            if file_mode().contains(' ') {
                let k = choose|k: int| 0 <= k < 6 && file_mode()[k] == ' ';
            }
        }
        assert(!dir_mode().contains(' ')) by {
            if dir_mode().contains(' ') {
                let k = choose|k: int| 0 <= k < 5 && dir_mode()[k] == ' ';
            }
        }
    }
    lemma_tree_body_roundtrip(rs);
    assert(rs.map_values(|r| record_display(r)) =~= es.map_values(
        |e: TreeEntry| record_display(entry_record(e)),
    ));
}


// ---------------------------------------------------------------------------
// The files under a tree
// ---------------------------------------------------------------------------

/// The files under a tree object, with their paths from it and their blob
/// hashes, depth first in the order of the listing; nothing if an object is
/// missing or malformed, is not a tree where one is needed, or the nesting
/// goes deeper than `fuel`.
pub open spec fn collect_spec(m: Map<Seq<char>, Seq<u8>>, hash: Seq<char>, fuel: nat) -> Option<
    Seq<(Seq<char>, Seq<char>)>,
>
    decreases fuel, 0nat,
{
    if fuel == 0 {
        None
    } else {
        match read_object(m, hash) {
            None => None,
            Some((k, body)) => if k != tree_kind() {
                None
            } else {
                match parse_tree_spec(body) {
                    None => None,
                    Some(ds) => collect_displays(m, ds, (fuel - 1) as nat),
                }
            },
        }
    }
}

/// The files under the entries of a listing: a directory entry (mode 40000)
/// contributes the files of its tree, a file entry itself.
pub open spec fn collect_displays(
    m: Map<Seq<char>, Seq<u8>>,
    ds: Seq<(Seq<char>, Seq<char>, Seq<char>)>,
    fuel: nat,
) -> Option<Seq<(Seq<char>, Seq<char>)>>
    decreases fuel, ds.len(),
{
    if ds.len() == 0 {
        Some(Seq::empty())
    } else {
        match collect_displays(m, ds.drop_last(), fuel) {
            None => None,
            Some(prev) => {
                let d = ds.last();
                if d.0 == dir_mode() {
                    match collect_spec(m, d.2, fuel) {
                        None => None,
                        Some(sub) => Some(prev + under_dir(d.1, sub)),
                    }
                } else {
                    Some(prev.push((d.1, d.2)))
                }
            },
        }
    }
}

/// Whether `e` is the error that collecting the files under a tree gives:
/// the nesting is deeper than `fuel`, the object does not load, it is not a
/// tree, its body does not split, or else the first directory entry whose
/// collection fails gives it.
pub open spec fn collect_error(m: Map<Seq<char>, Seq<u8>>, hash: Seq<char>, fuel: nat, e: Seq<char>) -> bool
    decreases fuel, 0nat,
{
    if fuel == 0 {
        e == "tree nesting deeper than the objects in the store"@
    } else {
        match read_object(m, hash) {
            None => load_error(m, hash, e),
            Some((k, body)) => if k != tree_kind() {
                e == "object "@ + hash + " is not a tree"@
            } else {
                match parse_tree_spec(body) {
                    None => tree_body_error(body) == Some(e),
                    Some(ds) => displays_error(m, ds, (fuel - 1) as nat, e),
                }
            },
        }
    }
}

/// Whether `e` is the error of the first directory entry of a listing
/// whose collection fails.
pub open spec fn displays_error(
    m: Map<Seq<char>, Seq<u8>>,
    ds: Seq<(Seq<char>, Seq<char>, Seq<char>)>,
    fuel: nat,
    e: Seq<char>,
) -> bool
    decreases fuel, ds.len(),
{
    if ds.len() == 0 {
        false
    } else {
        match collect_displays(m, ds.drop_last(), fuel) {
            None => displays_error(m, ds.drop_last(), fuel, e),
            Some(_) => ds.last().0 == dir_mode() && collect_error(m, ds.last().2, fuel, e),
        }
    }
}

/// The error of a failing entry stays the error of the whole listing.
proof fn lemma_displays_error_prefix(
    m: Map<Seq<char>, Seq<u8>>,
    ds: Seq<(Seq<char>, Seq<char>, Seq<char>)>,
    fuel: nat,
    j: int,
    e: Seq<char>,
)
    requires
        0 < j <= ds.len(),
        collect_displays(m, ds.take(j), fuel) is None,
        displays_error(m, ds.take(j), fuel, e),
    ensures
        displays_error(m, ds, fuel, e),
    decreases ds.len() - j,
{
    if j < ds.len() {
        assert(ds.take(j + 1).drop_last() =~= ds.take(j));
        lemma_displays_error_prefix(m, ds, fuel, j + 1, e);
    } else {
        assert(ds.take(j) =~= ds);
    }
}

/// Every hash in a parsed listing is the text of twenty bytes.
pub proof fn lemma_parsed_hashes(b: Seq<u8>)
    ensures
        parse_tree_spec(b) matches Some(ds) ==> forall|j: int|
            0 <= j < ds.len() ==> (#[trigger] ds[j]).2.len() == 40 && object_key_ok(ds[j].2),
    decreases b.len(),
{
    if b.len() > 0 {
        match first_index(b, 32u8) {
            None => {},
            Some(m) => {
                let rest = b.subrange(m + 1, b.len() as int);
                lemma_first_index(b, 32u8);
                lemma_first_index(rest, 0u8);
                match first_index(rest, 0u8) {
                    None => {},
                    Some(n) => {
                        let end = m + n + 22;
                        if end <= b.len() {
                            let tail = b.subrange(end, b.len() as int);
                            lemma_parsed_hashes(tail);
                            lemma_hex_key_ok(b.subrange(end - 20, end));
                            match parse_tree_spec(b) {
                                Some(ds) => {
                                    let t = parse_tree_spec(tail)->0;
                                    assert forall|j: int| 0 <= j < ds.len() implies (
                                    #[trigger] ds[j]).2.len() == 40 && object_key_ok(ds[j].2) by {
                                        if j > 0 {
                                            assert(ds[j] == t[j - 1]);
                                        }
                                    }
                                },
                                None => {},
                            }
                        }
                    },
                }
            },
        }
    }
}

proof fn lemma_collect_prefix_none(
    m: Map<Seq<char>, Seq<u8>>,
    ds: Seq<(Seq<char>, Seq<char>, Seq<char>)>,
    fuel: nat,
    i: int,
)
    requires
        0 <= i <= ds.len(),
        collect_displays(m, ds.take(i), fuel) is None,
    ensures
        collect_displays(m, ds, fuel) is None,
    decreases ds.len() - i,
{
    if i < ds.len() {
        assert(ds.take(i + 1).drop_last() =~= ds.take(i));
        lemma_collect_prefix_none(m, ds, fuel, i + 1);
    } else {
        assert(ds.take(i) =~= ds);
    }
}

fn collect_with_fuel(store: &ObjectStore, tree_hash: &str, fuel: usize) -> (r: Result<
    Vec<(String, String)>,
    String,
>)
    requires
        object_key_ok(tree_hash@),
    ensures
        r is Ok <==> collect_spec(store@, tree_hash@, fuel as nat) is Some,
        r matches Ok(v) ==> collect_spec(store@, tree_hash@, fuel as nat) == Some(pairs_view(v@)),
        r matches Err(e) ==> collect_error(store@, tree_hash@, fuel as nat, e@),
    decreases fuel,
{
    proof {
        reveal_strlit("tree nesting deeper than the objects in the store");
        reveal_strlit("object ");
        reveal_strlit(" is not a tree");
    }
    if fuel == 0 {
        return Err(String::from_str("tree nesting deeper than the objects in the store"));
    }
    let (object_type, content) = match store.load(tree_hash) {
        Ok(loaded) => loaded,
        Err(e) => {
            return Err(e);
        },
    };
    let tree_text = String::from_str("tree");
    proof {
        reveal_strlit("tree");
        assert(tree_text@ == tree_kind());
    }
    if object_type != tree_text {
        let mut msg = String::from_str("object ");
        msg.append(tree_hash);
        msg.append(" is not a tree");
        return Err(msg);
    }
    let entries = match parse_tree_body(content.as_slice()) {
        Ok(v) => v,
        Err(e) => {
            return Err(e);
        },
    };
    let ghost ds = displays_view(entries@);
    let ghost f = (fuel - 1) as nat;
    proof {
        lemma_parsed_hashes(content@);
    }
    let dir_text = String::from_str("40000");
    proof {
        reveal_strlit("40000");
        assert(dir_text@ == dir_mode());
        reveal_strlit("/");
    }
    let mut result: Vec<(String, String)> = Vec::new();
    let mut i: usize = 0;
    assert(collect_spec(store@, tree_hash@, fuel as nat) == collect_displays(store@, ds, f));
    assert(forall|e: Seq<char>|
        #[trigger] collect_error(store@, tree_hash@, fuel as nat, e) == displays_error(
            store@,
            ds,
            f,
            e,
        ));
    assert(ds.take(0) =~= Seq::<(Seq<char>, Seq<char>, Seq<char>)>::empty());
    while i < entries.len()
        invariant
            forall|e: Seq<char>|
                #[trigger] collect_error(store@, tree_hash@, fuel as nat, e) == displays_error(
                    store@,
                    ds,
                    f,
                    e,
                ),
            i <= entries@.len(),
            ds == displays_view(entries@),
            f == fuel - 1,
            fuel > 0,
            dir_text@ == dir_mode(),
            forall|j: int| 0 <= j < ds.len() ==> object_key_ok((#[trigger] ds[j]).2),
            collect_spec(store@, tree_hash@, fuel as nat) == collect_displays(store@, ds, f),
            collect_displays(store@, ds.take(i as int), f) == Some(pairs_view(result@)),
        decreases entries@.len() - i,
    {
        let entry = &entries[i];
        proof {
            assert(ds.take(i + 1).drop_last() =~= ds.take(i as int));
            assert(ds.take(i + 1).last() == ds[i as int]);
            assert(ds[i as int] == display_view(*entry));
        }
        if entry.mode == dir_text {
            proof {
                assert(object_key_ok(ds[i as int].2));
            }
            let sub = match collect_with_fuel(store, entry.hash_hex.as_str(), fuel - 1) {
                Ok(v) => v,
                Err(e) => {
                    proof {
                        assert(collect_spec(store@, ds[i as int].2, f) is None);
                        assert(collect_displays(store@, ds.take(i + 1), f) is None);
                        lemma_collect_prefix_none(store@, ds, f, i + 1);
                        assert(displays_error(store@, ds.take(i + 1), f, e@));
                        lemma_displays_error_prefix(store@, ds, f, i + 1, e@);
                        assert(collect_spec(store@, tree_hash@, fuel as nat) == collect_displays(
                            store@,
                            ds,
                            f,
                        ));
                    }
                    return Err(e);
                },
            };
            let ghost before = pairs_view(result@);
            let mut k: usize = 0;
            while k < sub.len()
                invariant
                    k <= sub@.len(),
                    pairs_view(result@) == before + under_dir(
                        entry.name@,
                        pairs_view(sub@).take(k as int),
                    ),
                decreases sub@.len() - k,
            {
                let mut path = entry.name.clone();
                path.append("/");
                path.append(sub[k].0.as_str());
                let ghost prev_result = pairs_view(result@);
                result.push((path, sub[k].1.clone()));
                proof {
                    let sv = pairs_view(sub@);
                    let x = sv[k as int];
                    assert(x == (sub@[k as int].0@, sub@[k as int].1@));
                    assert(pairs_view(result@) =~= prev_result.push((entry.name@ + "/"@ + x.0, x.1)));
                    assert(under_dir(entry.name@, sv.take(k as int).push(x)) =~= under_dir(
                        entry.name@,
                        sv.take(k as int),
                    ).push((entry.name@ + "/"@ + x.0, x.1)));
                    assert(pairs_view(sub@).take(k + 1) =~= pairs_view(sub@).take(k as int).push(
                        pairs_view(sub@)[k as int],
                    ));
                    assert(pairs_view(result@) =~= before + under_dir(
                        entry.name@,
                        pairs_view(sub@).take(k + 1),
                    ));
                }
                k = k + 1;
            }
            proof {
                assert(pairs_view(sub@).take(sub@.len() as int) =~= pairs_view(sub@));
                assert(collect_spec(store@, ds[i as int].2, f) == Some(pairs_view(sub@)));
                assert(pairs_view(result@) == collect_displays(store@, ds.take(i + 1), f)->0);
            }
        } else {
            result.push((entry.name.clone(), entry.hash_hex.clone()));
            proof {
                assert(pairs_view(result@) =~= collect_displays(store@, ds.take(i + 1), f)->0);
            }
        }
        i = i + 1;
    }
    proof {
        assert(ds.take(entries@.len() as int) =~= ds);
    }
    Ok(result)
}

/// The files under a tree, each with its path from the tree and the hash of
/// its blob. The name must be splittable into directory and file; a tree
/// nested deeper than the store has objects (only possible with a cycle)
/// is an error.
pub fn collect_tree_entries(store: &ObjectStore, tree_hash: &str) -> (r: Result<
    Vec<(String, String)>,
    String,
>)
    requires
        object_key_ok(tree_hash@),
    ensures
        r is Ok <==> collect_spec(store@, tree_hash@, store.files@.len()) is Some,
        r matches Ok(v) ==> collect_spec(store@, tree_hash@, store.files@.len()) == Some(
            pairs_view(v@),
        ),
        r matches Err(e) ==> collect_error(store@, tree_hash@, store.files@.len(), e@),
{
    collect_with_fuel(store, tree_hash, store.files.len())
}


// ---------------------------------------------------------------------------
// Reading back a saved tree
// ---------------------------------------------------------------------------

/// Entries whose tree reads back as the files they hold: no zero character
/// in a name, and each file hash written as the name of an object is, in
/// forty lower-case hexadecimal digits; at every depth.
pub open spec fn entries_readable(es: Seq<TreeEntry>) -> bool
    decreases es,
{
    forall|i: int|
        0 <= i < es.len() ==> match #[trigger] es[i] {
            TreeEntry::File { name, hash } => !name@.contains('\0') && lower_hex40(hash@),
            TreeEntry::Directory { name, children } => !name@.contains('\0') && entries_readable(
                children.entries@,
            ),
        }
}

/// Paths without a zero character, each with a hash written as an object
/// name is.
pub open spec fn pairs_readable(es: Seq<(Seq<char>, Seq<char>)>) -> bool {
    forall|i: int|
        0 <= i < es.len() ==> !(#[trigger] es[i]).0.contains('\0') && lower_hex40(es[i].1)
}

proof fn lemma_readable_prefix(es: Seq<(Seq<char>, Seq<char>)>)
    requires
        es.len() > 0,
        pairs_readable(es),
    ensures
        pairs_readable(es.drop_last()),
        !es.last().0.contains('\0'),
        lower_hex40(es.last().1),
{
    assert(es.last() == es[es.len() - 1]);
    assert forall|i: int| 0 <= i < es.drop_last().len() implies !(
    #[trigger] es.drop_last()[i]).0.contains('\0') && lower_hex40(es.drop_last()[i].1) by {
        assert(es.drop_last()[i] == es[i]);
    }
}

/// A part of a text lacks what the text lacks.
proof fn lemma_part_lacks(s: Seq<char>, a: int, b: int, c: char)
    requires
        0 <= a <= b <= s.len(),
        !s.contains(c),
    ensures
        !s.subrange(a, b).contains(c),
{
    if s.subrange(a, b).contains(c) {
        let k = choose|k: int| 0 <= k < b - a && s.subrange(a, b)[k] == c;
        assert(s[a + k] == c);
    }
}

/// The segments of a path without a zero character have none either.
proof fn lemma_segments_lack_zero(path: Seq<char>)
    requires
        !path.contains('\0'),
    ensures
        first_segment(path) matches Some(d) ==> !d.contains('\0'),
        !after_first_segment(path).contains('\0'),
{
    lemma_first_index(path, '/');
    match first_index(path, '/') {
        Some(i) => {
            lemma_part_lacks(path, 0, i, '\0');
            lemma_part_lacks(path, i + 1, path.len() as int, '\0');
        },
        None => {},
    }
}

proof fn lemma_children_readable(es: Seq<(Seq<char>, Seq<char>)>, d: Seq<char>)
    requires
        pairs_readable(es),
    ensures
        pairs_readable(children_of(es, d)),
    decreases es.len(),
{
    if es.len() > 0 {
        lemma_readable_prefix(es);
        lemma_children_readable(es.drop_last(), d);
        lemma_segments_lack_zero(es.last().0);
    }
}

proof fn lemma_files_readable(es: Seq<(Seq<char>, Seq<char>)>)
    requires
        pairs_readable(es),
    ensures
        pairs_readable(file_entries(es)),
    decreases es.len(),
{
    if es.len() > 0 {
        lemma_readable_prefix(es);
        lemma_files_readable(es.drop_last());
    }
}

proof fn lemma_dir_names_lack_zero(es: Seq<(Seq<char>, Seq<char>)>)
    requires
        pairs_readable(es),
    ensures
        forall|i: int| 0 <= i < dir_names(es).len() ==> !(#[trigger] dir_names(es)[i]).contains('\0'),
    decreases es.len(),
{
    if es.len() > 0 {
        lemma_readable_prefix(es);
        lemma_dir_names_lack_zero(es.drop_last());
        lemma_segments_lack_zero(es.last().0);
        let prev = dir_names(es.drop_last());
        assert forall|i: int| 0 <= i < dir_names(es).len() implies !(
        #[trigger] dir_names(es)[i]).contains('\0') by {
            if i < prev.len() {
                assert(dir_names(es)[i] == prev[i]);
            }
        }
    }
}

/// The tree built from readable paths is readable.
pub proof fn lemma_tree_readable(t: Tree, es: Seq<(Seq<char>, Seq<char>)>)
    requires
        is_tree_of(t, es),
        pairs_readable(es),
    ensures
        entries_readable(t.entries@),
    decreases t,
{
    let dirs = dir_names(es);
    let files = file_entries(es);
    lemma_files_readable(es);
    lemma_dir_names_lack_zero(es);
    assert forall|i: int| 0 <= i < t.entries@.len() implies match #[trigger] t.entries@[i] {
        TreeEntry::File { name, hash } => !name@.contains('\0') && lower_hex40(hash@),
        TreeEntry::Directory { name, children } => !name@.contains('\0') && entries_readable(
            children.entries@,
        ),
    } by {
        if i < dirs.len() {
            assert(!dirs[i].contains('\0'));
            match t.entries@[i] {
                TreeEntry::Directory { children, .. } => {
                    lemma_children_readable(es, dirs[i]);
                    lemma_tree_readable(children, children_of(es, dirs[i]));
                },
                TreeEntry::File { .. } => {},
            }
        } else {
            let j = i - dirs.len();
            assert(is_file_entry(t.entries@[dirs.len() + j], files[j]));
            assert(!files[j].0.contains('\0') && lower_hex40(files[j].1));
        }
    }
}

/// Every tree below the entries is in the store under its name.
pub open spec fn stored_below(m: Map<Seq<char>, Seq<u8>>, es: Seq<TreeEntry>) -> bool {
    forall|s: Tree|
        #[trigger] within_entries(s, es) ==> m.dom().contains(tree_hash(s)) && m[tree_hash(s)]
            == zlib_deflate(tree_object(s))
}

/// How a listing shows an entry.
pub open spec fn entry_display(e: TreeEntry) -> (Seq<char>, Seq<char>, Seq<char>) {
    record_display(entry_record(e))
}

/// Reading a tree that is in the store gives the files it holds.
pub proof fn lemma_read_tree(m: Map<Seq<char>, Seq<u8>>, s: Tree, fuel: nat)
    requires
        m.dom().contains(tree_hash(s)),
        m[tree_hash(s)] == zlib_deflate(tree_object(s)),
        object_facts(tree_object(s)),
        entries_readable(s.entries@),
        subtree_facts(s.entries@),
        stored_below(m, s.entries@),
        fuel > tree_height(s.entries@),
    ensures
        collect_spec(m, tree_hash(s), fuel) == Some(entries_files(s.entries@)),
    decreases fuel, 0nat,
{
    let es = s.entries@;
    assert(plain_kind(tree_kind())) by {
        if tree_kind().contains(' ') {
            let k = choose|k: int| 0 <= k < 4 && tree_kind()[k] == ' ';
        }
        if tree_kind().contains('\0') {
            let k = choose|k: int| 0 <= k < 4 && tree_kind()[k] == '\0';
        }
    }
    lemma_object_roundtrip(tree_kind(), entries_body(es));
    assert(read_object(m, tree_hash(s)) == Some((tree_kind(), entries_body(es))));
    assert(entries_listable(es)) by {
        assert forall|i: int| 0 <= i < es.len() implies match #[trigger] es[i] {
            TreeEntry::File { name, hash } => !name@.contains('\0') && valid_hex(hash@)
                && hash@.len() == 40,
            TreeEntry::Directory { name, .. } => !name@.contains('\0'),
        } by {
            match es[i] {
                TreeEntry::File { hash, .. } => {
                    lemma_lower_hex(hash@);
                },
                TreeEntry::Directory { .. } => {},
            }
        }
    }
    law_tree_listing(s);
    assert(es.map_values(|e: TreeEntry| record_display(entry_record(e))) =~= es.map_values(
        |e: TreeEntry| entry_display(e),
    ));
    lemma_read_entries(m, es, (fuel - 1) as nat);
}

/// Reading the entries of a listing of trees that are in the store gives the
/// files they hold.
proof fn lemma_read_entries(m: Map<Seq<char>, Seq<u8>>, es: Seq<TreeEntry>, fuel: nat)
    requires
        entries_readable(es),
        subtree_facts(es),
        stored_below(m, es),
        fuel >= tree_height(es),
    ensures
        collect_displays(m, es.map_values(|e: TreeEntry| entry_display(e)), fuel) == Some(
            entries_files(es),
        ),
    decreases fuel, es.len(),
{
    let ds = es.map_values(|e: TreeEntry| entry_display(e));
    if es.len() == 0 {
        assert(ds =~= Seq::empty());
    } else {
        let pre = es.drop_last();
        assert(ds.drop_last() =~= pre.map_values(|e: TreeEntry| entry_display(e)));
        assert(entries_readable(pre)) by {
            assert forall|i: int| 0 <= i < pre.len() implies match #[trigger] pre[i] {
                TreeEntry::File { name, hash } => !name@.contains('\0') && lower_hex40(hash@),
                TreeEntry::Directory { name, children } => !name@.contains('\0')
                    && entries_readable(children.entries@),
            } by {
                assert(pre[i] == es[i]);
            }
        }
        assert(subtree_facts(pre)) by {
            assert forall|i: int| 0 <= i < pre.len() implies match #[trigger] pre[i] {
                TreeEntry::File { .. } => true,
                TreeEntry::Directory { children, .. } => object_facts(
                    object_bytes(tree_kind(), entries_body(children.entries@)),
                ) && subtree_facts(children.entries@),
            } by {
                assert(pre[i] == es[i]);
            }
        }
        assert(stored_below(m, pre)) by {
            assert forall|s: Tree| #[trigger] within_entries(s, pre) implies m.dom().contains(
                tree_hash(s),
            ) && m[tree_hash(s)] == zlib_deflate(tree_object(s)) by {
                assert(within_entries(s, es));
            }
        }
        lemma_read_entries(m, pre, fuel);
        let last = es.last();
        assert(es[es.len() - 1] == last);
        assert(ds.last() == entry_display(last));
        match last {
            TreeEntry::File { name, hash } => {
                lemma_lower_hex(hash@);
                assert(file_mode().len() != dir_mode().len());
                assert(entries_files(es) =~= entries_files(pre).push((name@, hash@)));
            },
            TreeEntry::Directory { name, children } => {
                let ces = children.entries@;
                assert(within_entries(children, es));
                assert(stored_below(m, ces)) by {
                    assert forall|s: Tree| #[trigger] within_entries(s, ces) implies m.dom().contains(
                        tree_hash(s),
                    ) && m[tree_hash(s)] == zlib_deflate(tree_object(s)) by {
                        assert(within_entries(s, es));
                    }
                }
                assert(entry_display(last).2 == tree_hash(children));
                lemma_read_tree(m, children, fuel);
            },
        }
    }
}

/// Reading back a tree after saving it gives the files it holds, with their
/// paths from it and their hashes, depth first in the order of its entries;
/// when file hashes are written as object names are, no name holds a zero
/// character, no two trees below it share a SHA-1, and the reader may
/// descend deeper than the tree nests.
pub proof fn law_tree_read_back(m: Map<Seq<char>, Seq<u8>>, t: Tree, fuel: nat)
    requires
        entries_readable(t.entries@),
        subtree_facts(t.entries@),
        object_facts(tree_object(t)),
        no_name_collision(t),
        fuel > tree_height(t.entries@),
    ensures
        collect_spec(saved_tree(m, t), tree_hash(t), fuel) == Some(entries_files(t.entries@)),
{
    let sm = saved_tree(m, t);
    lemma_saved_tree_holds(m, t, t);
    assert(stored_below(sm, t.entries@)) by {
        assert forall|s: Tree| #[trigger] within_entries(s, t.entries@) implies sm.dom().contains(
            tree_hash(s),
        ) && sm[tree_hash(s)] == zlib_deflate(tree_object(s)) by {
            lemma_saved_tree_holds(m, t, s);
        }
    }
    lemma_read_tree(sm, t, fuel);
}


// ---------------------------------------------------------------------------
// Showing objects
// ---------------------------------------------------------------------------

/// A mode padded on the left with zeros to six characters.
pub open spec fn pad_mode(mode: Seq<char>) -> Seq<char> {
    if mode.len() < 6 {
        Seq::new((6 - mode.len()) as nat, |i: int| '0') + mode
    } else {
        mode
    }
}

/// One line of a tree listing: padded mode, `tree` or `blob`, hash, four
/// spaces, name.
pub open spec fn listing_line(d: (Seq<char>, Seq<char>, Seq<char>)) -> Seq<char> {
    pad_mode(d.0) + " "@ + (if d.0 == dir_mode() {
        "tree"@
    } else {
        "blob"@
    }) + " "@ + d.2 + "    "@ + d.1 + "\n"@
}

/// The lines of a tree listing, in order.
pub open spec fn listing_text(ds: Seq<(Seq<char>, Seq<char>, Seq<char>)>) -> Seq<char>
    decreases ds.len(),
{
    if ds.len() == 0 {
        Seq::empty()
    } else {
        listing_text(ds.drop_last()) + listing_line(ds.last())
    }
}

/// What showing an object prints: the listing of a tree, or the body of any
/// other object as text; nothing when a tree body is malformed or another
/// body is not UTF-8.
pub open spec fn shown_content(kind: Seq<char>, body: Seq<u8>) -> Option<Seq<char>> {
    if kind == tree_kind() {
        match parse_tree_spec(body) {
            Some(ds) => Some(listing_text(ds)),
            None => None,
        }
    } else if valid_utf8(body) {
        Some(decode_utf8(body))
    } else {
        None
    }
}

/// Showing an object that is not a tree gives its body as text when the
/// body is UTF-8, whatever its kind (blob, commit or another), and an error
/// otherwise; only a tree is listed.
pub proof fn law_show_non_tree(kind: Seq<char>, body: Seq<u8>)
    requires
        kind != "tree"@,
    ensures
        valid_utf8(body) ==> shown_content(kind, body) == Some(decode_utf8(body)),
        !valid_utf8(body) ==> shown_content(kind, body) is None,
        !valid_utf8(body) ==> shown_error(kind, body) == Some(
            "invalid object content: "@ + utf8_error(body),
        ),
{
    reveal_strlit("tree");
    assert(tree_kind() == "tree"@);
}

/// The error that showing an object gives when its body does not show: the
/// tree body's error, or, for another kind, std's message for a body that
/// is not UTF-8 after a prefix.
pub open spec fn shown_error(kind: Seq<char>, body: Seq<u8>) -> Option<Seq<char>> {
    if kind == tree_kind() {
        tree_body_error(body)
    } else if valid_utf8(body) {
        None
    } else {
        Some("invalid object content: "@ + utf8_error(body))
    }
}

/// The error that reading the tree hash out of a commit gives, given the
/// kind and body of the object stored under its name: the object is not a
/// commit, its body is not UTF-8, or no line starts with `tree `.
pub open spec fn commit_tree_error(name: Seq<char>, kind: Seq<char>, body: Seq<u8>) -> Seq<char> {
    if kind != "commit"@ {
        "object "@ + name + " is not a commit"@
    } else if !valid_utf8(body) {
        "invalid commit object content: "@ + utf8_error(body)
    } else {
        "tree hash not found in commit object"@
    }
}

/// Appends the listing line of one entry.
fn push_listing_line(out: &mut String, e: &TreeEntryDisplay, dir_text: &String)
    requires
        dir_text@ == dir_mode(),
    ensures
        final(out)@ == old(out)@ + listing_line(display_view(*e)),
{
    proof {
        reveal_strlit("0");
    }
    let n = e.mode.as_str().unicode_len();
    let mut pad: usize = n;
    let ghost padded_from = out@;
    while pad < 6
        invariant
            n <= pad <= 6 || (n >= 6 && pad == n),
            n == e.mode@.len(),
            "0"@ == seq!['0'],
            out@ == padded_from + Seq::new((pad - n) as nat, |k: int| '0'),
        decreases 6 - pad,
    {
        out.append("0");
        proof {
            assert(out@ =~= padded_from + Seq::new((pad + 1 - n) as nat, |k: int| '0'));
        }
        pad = pad + 1;
    }
    out.append(e.mode.as_str());
    out.append(" ");
    if e.mode == *dir_text {
        out.append("tree");
    } else {
        out.append("blob");
    }
    out.append(" ");
    out.append(e.hash_hex.as_str());
    out.append("    ");
    out.append(e.name.as_str());
    out.append("\n");
    proof {
        if n >= 6 {
            assert(Seq::new((pad - n) as nat, |k: int| '0') =~= Seq::<char>::empty());
        }
        assert(final(out)@ =~= old(out)@ + listing_line(display_view(*e)));
    }
}

/// The listing of a parsed tree.
fn format_listing(entries: &Vec<TreeEntryDisplay>) -> (r: String)
    ensures
        r@ == listing_text(displays_view(entries@)),
{
    let ghost ds = displays_view(entries@);
    let dir_text = String::from_str("40000");
    proof {
        reveal_strlit("40000");
    }
    let mut out = String::new();
    let mut i: usize = 0;
    while i < entries.len()
        invariant
            i <= entries@.len(),
            ds == displays_view(entries@),
            dir_text@ == dir_mode(),
            out@ == listing_text(ds.take(i as int)),
        decreases entries@.len() - i,
    {
        let ghost before = out@;
        push_listing_line(&mut out, &entries[i], &dir_text);
        proof {
            assert(ds.take(i + 1).drop_last() =~= ds.take(i as int));
            assert(ds.take(i + 1).last() == display_view(entries@[i as int]));
        }
        i = i + 1;
    }
    proof {
        assert(ds.take(entries@.len() as int) =~= ds);
    }
    out
}

/// The text that showing an object prints, given its kind and body.
pub fn show_loaded(object_type: &String, content: Vec<u8>) -> (r: Result<String, String>)
    ensures
        r is Ok <==> shown_content(object_type@, content@) is Some,
        r matches Ok(s) ==> shown_content(object_type@, content@) == Some(s@),
        r matches Err(e) ==> shown_error(object_type@, content@) == Some(e@),
        object_type@ != "tree"@ && valid_utf8(content@) ==> (r matches Ok(s) && s@ == decode_utf8(
            content@,
        )),
        object_type@ != "tree"@ && !valid_utf8(content@) ==> r is Err,
{
    proof {
        if object_type@ != "tree"@ {
            law_show_non_tree(object_type@, content@);
        }
    }
    proof {
        reveal_strlit("invalid object content: ");
    }
    let tree_text = String::from_str("tree");
    proof {
        reveal_strlit("tree");
        assert(tree_text@ == tree_kind());
    }
    if *object_type == tree_text {
        let entries = match parse_tree_body(content.as_slice()) {
            Ok(v) => v,
            Err(e) => {
                return Err(e);
            },
        };
        Ok(format_listing(&entries))
    } else {
        match utf8_to_string(content.as_slice()) {
            Ok(s) => Ok(s),
            Err(e) => {
                let mut msg = String::from_str("invalid object content: ");
                msg.append(e.as_str());
                Err(msg)
            },
        }
    }
}

/// The kind of the object stored under a name.
pub fn cat_file_type(store: &ObjectStore, hash: &str) -> (r: Result<String, String>)
    requires
        object_key_ok(hash@),
    ensures
        r is Ok <==> read_object(store@, hash@) is Some,
        r matches Ok(k) ==> read_object(store@, hash@) matches Some((kind, _)) && kind == k@,
        r matches Err(e) ==> load_error(store@, hash@, e@),
{
    let (object_type, _) = match store.load(hash) {
        Ok(loaded) => loaded,
        Err(e) => {
            return Err(e);
        },
    };
    Ok(object_type)
}

/// What showing the object stored under a name prints: a listing for a
/// tree, the body as text otherwise.
pub fn cat_file_print(store: &ObjectStore, hash: &str) -> (r: Result<String, String>)
    requires
        object_key_ok(hash@),
    ensures
        r is Ok <==> (match read_object(store@, hash@) {
            Some((k, b)) => shown_content(k, b) is Some,
            None => false,
        }),
        r matches Ok(s) ==> read_object(store@, hash@) matches Some((k, b)) && shown_content(k, b)
            == Some(s@),
        r matches Err(e) ==> (match read_object(store@, hash@) {
            Some((k, b)) => shown_error(k, b) == Some(e@),
            None => load_error(store@, hash@, e@),
        }),
        (match read_object(store@, hash@) {
            Some((k, b)) => k != "tree"@ && valid_utf8(b) ==> (r matches Ok(s) && s@ == decode_utf8(
                b,
            )),
            None => true,
        }),
{
    let (object_type, content) = match store.load(hash) {
        Ok(loaded) => loaded,
        Err(e) => {
            return Err(e);
        },
    };
    show_loaded(&object_type, content)
}

/// The tree hash that the commit stored under a name records. The object
/// must be a commit whose body is UTF-8 and has a `tree ` line.
pub fn get_tree_hash_from_commit(store: &ObjectStore, commit_hash: &str) -> (r: Result<
    String,
    String,
>)
    requires
        object_key_ok(commit_hash@),
    ensures
        r is Ok <==> (match read_object(store@, commit_hash@) {
            Some((k, b)) => k == "commit"@ && valid_utf8(b) && tree_line_hash(lines(decode_utf8(b)))
                is Some,
            None => false,
        }),
        r matches Ok(h) ==> read_object(store@, commit_hash@) matches Some((_, b)) && tree_line_hash(
            lines(decode_utf8(b)),
        ) == Some(h@),
        r matches Err(e) ==> (match read_object(store@, commit_hash@) {
            Some((k, b)) => e@ == commit_tree_error(commit_hash@, k, b),
            None => load_error(store@, commit_hash@, e@),
        }),
{
    proof {
        reveal_strlit("object ");
        reveal_strlit(" is not a commit");
        reveal_strlit("invalid commit object content: ");
        reveal_strlit("tree hash not found in commit object");
        reveal_strlit("commit");
    }
    let (object_type, content) = match store.load(commit_hash) {
        Ok(loaded) => loaded,
        Err(e) => {
            return Err(e);
        },
    };
    let commit_text = String::from_str("commit");
    if object_type != commit_text {
        let mut msg = String::from_str("object ");
        msg.append(commit_hash);
        msg.append(" is not a commit");
        return Err(msg);
    }
    let content_str = match utf8_to_string(content.as_slice()) {
        Ok(s) => s,
        Err(e) => {
            let mut msg = String::from_str("invalid commit object content: ");
            msg.append(e.as_str());
            return Err(msg);
        },
    };
    match tree_hash_in_text(content_str.as_str()) {
        Some(h) => Ok(h),
        None => Err(String::from_str("tree hash not found in commit object")),
    }
}

} // verus!
