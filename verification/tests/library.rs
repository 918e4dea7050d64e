use minigit::add::add_execute::{add_file, add_index, head_tree_entries, HeadTreeFailure};
use minigit::commands::branch::{branch_listing, check_branch_count, check_new_branch, current_branch};
use minigit::commands::checkout::{check_safety, update_index, working_directory_plan};
use minigit::commands::util::{ignore_patterns, is_ignored, normalize_path};
use minigit::commit::commit_execute::{create_commit_object, create_tree_object};
use minigit::commit::tree::{build_tree, save_tree};
use minigit::common::helper::{
    cat_file_print, cat_file_type, collect_tree_entries, get_tree_hash_from_commit, parse_tree_body,
};
use minigit::index::{Index, IndexEntry};
use minigit::object::blob::Blob;
use minigit::object::commit::Commit;
use minigit::object::store::{
    bytes_to_hex, encode_object, hash, hex_to_bytes, is_valid_hex, parse_object_bytes, save,
    ObjectStore,
};
use minigit::object::store::DeflateFailure;
use minigit::object::GitObject;
use minigit::refs::{current_commit, current_tree_hash, resolve_head};

fn pairs(v: &[(&str, &str)]) -> Vec<(String, String)> {
    v.iter().map(|(a, b)| (a.to_string(), b.to_string())).collect()
}

#[test]
fn hex_encodes_lower_case_pairs() {
    assert_eq!(bytes_to_hex(&[0x00, 0xab, 0xff, 0x10]), "00abff10");
    assert_eq!(bytes_to_hex(&[]), "");
}

#[test]
fn hex_decodes_pairs() {
    assert_eq!(hex_to_bytes("00abff10"), vec![0x00, 0xab, 0xff, 0x10]);
    assert_eq!(hex_to_bytes("ABcd"), vec![0xab, 0xcd]);
    assert_eq!(hex_to_bytes("+a"), vec![0x0a]);
    assert_eq!(hex_to_bytes(""), Vec::<u8>::new());
}

#[test]
fn hex_roundtrip_on_values() {
    let bytes: Vec<u8> = (0..=255u8).collect();
    assert_eq!(hex_to_bytes(&bytes_to_hex(&bytes)), bytes);
}

#[test]
fn hex_validity() {
    assert!(is_valid_hex("00ff"));
    assert!(is_valid_hex("+f"));
    assert!(!is_valid_hex("abc"));
    assert!(!is_valid_hex("zz"));
    assert!(!is_valid_hex("f+"));
    assert!(!is_valid_hex("hash_a"));
}

#[test]
fn object_header_and_body() {
    assert_eq!(encode_object("blob", b"hello"), b"blob 5\0hello".to_vec());
    assert_eq!(encode_object("tree", b""), b"tree 0\0".to_vec());
    let long = vec![7u8; 1234];
    let enc = encode_object("blob", &long);
    assert_eq!(&enc[..10], b"blob 1234\0");
}

#[test]
fn object_parsing() {
    let (k, b) = parse_object_bytes(b"commit 3\0abc").unwrap();
    assert_eq!(k, "commit");
    assert_eq!(b, b"abc".to_vec());
    let (k, b) = parse_object_bytes(b"weird\0").unwrap();
    assert_eq!(k, "weird");
    assert!(b.is_empty());
    assert_eq!(parse_object_bytes(b"blob 3 abc").unwrap_err(), "invalid object format");
    let err = parse_object_bytes(&[0xff, 0xfe, 0, 1]).unwrap_err();
    assert!(err.starts_with("invalid object header: "));
}

#[test]
fn blob_hash_matches_git() {
    let blob = Blob { content: b"hello\n".to_vec() };
    assert_eq!(hash(&blob), "ce013625030ba8dba906f756967f9e9ca394464a");
}

#[test]
fn store_reads_back_what_was_saved() {
    let mut store = ObjectStore::new();
    let blob = Blob { content: b"hello\n".to_vec() };
    let h = save(&mut store, &blob).unwrap();
    assert_eq!(h, "ce013625030ba8dba906f756967f9e9ca394464a");
    assert_eq!(store.files.len(), 1);
    // the stored file is compressed, not the object itself
    assert_ne!(store.files[0].1, encode_object("blob", b"hello\n"));
    let (k, body) = store.load(&h).unwrap();
    assert_eq!(k, "blob");
    assert_eq!(body, b"hello\n".to_vec());
    assert_eq!(cat_file_type(&store, &h).unwrap(), "blob");
    assert_eq!(cat_file_print(&store, &h).unwrap(), "hello\n");
}

#[test]
fn store_missing_and_corrupt_objects() {
    let mut store = ObjectStore::new();
    let err = store.load("0123").unwrap_err();
    assert!(err.starts_with("failed to read object: "));
    store.insert_file("abcd".to_string(), b"not zlib".to_vec());
    let err = store.load("abcd").unwrap_err();
    assert!(err.starts_with("failed to decompress object: "));
}

#[test]
fn object_location_splits_name() {
    let (dir, file) = minigit::object::store::object_location("ce013625030ba8dba906f756967f9e9ca394464a");
    assert_eq!(dir, ".minigit/objects/ce");
    assert_eq!(file, ".minigit/objects/ce/013625030ba8dba906f756967f9e9ca394464a");
}

#[test]
fn tree_objects_list_back() {
    let mut store = ObjectStore::new();
    let a = save(&mut store, &Blob { content: b"a\n".to_vec() }).unwrap();
    let b = save(&mut store, &Blob { content: b"b\n".to_vec() }).unwrap();
    let tree = build_tree(pairs(&[("src/a.txt", &a), ("top.txt", &b)]));
    let root = save_tree(&mut store, &tree).unwrap();
    assert_eq!(cat_file_type(&store, &root).unwrap(), "tree");
    let listing = cat_file_print(&store, &root).unwrap();
    let lines: Vec<&str> = listing.lines().collect();
    assert_eq!(lines.len(), 2);
    assert!(lines[0].starts_with("040000 tree "));
    assert!(lines[0].ends_with("    src"));
    assert_eq!(lines[1], format!("100644 blob {}    top.txt", b));
    let files = collect_tree_entries(&store, &root).unwrap();
    assert_eq!(files, pairs(&[("src/a.txt", &a), ("top.txt", &b)]));
}

#[test]
fn tree_body_parse_errors() {
    assert_eq!(parse_tree_body(b"").unwrap().len(), 0);
    assert_eq!(parse_tree_body(b"100644").err().unwrap(), "invalid tree entry format");
    assert_eq!(parse_tree_body(b"100644 name").err().unwrap(), "invalid tree entry format");
    assert_eq!(parse_tree_body(b"100644 name\0short").err().unwrap(), "invalid tree entry format");
    let mut body = b"100644 x\0".to_vec();
    body.extend(vec![0xab; 20]);
    let entries = parse_tree_body(&body).unwrap();
    assert_eq!(entries.len(), 1);
    assert_eq!(entries[0].mode, "100644");
    assert_eq!(entries[0].name, "x");
    assert_eq!(entries[0].hash_hex, "ab".repeat(20));
}

#[test]
fn collecting_a_non_tree_fails() {
    let mut store = ObjectStore::new();
    let a = save(&mut store, &Blob { content: b"a".to_vec() }).unwrap();
    assert_eq!(collect_tree_entries(&store, &a).unwrap_err(), format!("object {} is not a tree", a));
}

#[test]
fn commit_body_text() {
    let c = Commit::new("t1".to_string(), Some("p1".to_string()), "msg".to_string());
    assert_eq!(c.object_type(), "commit");
    let body = String::from_utf8(c.serialize_body()).unwrap();
    assert_eq!(
        body,
        "tree t1\nparent p1\nauthor foo <bar@example.com>\ncommitter foo <bar@example.com>\n\nmsg\n"
    );
    assert_eq!(Commit::parse_tree_hash(body.as_bytes()).unwrap(), "t1");
    let c = Commit::new("t2".to_string(), None, "m".to_string());
    let body = String::from_utf8(c.serialize_body()).unwrap();
    assert_eq!(body, "tree t2\nauthor foo <bar@example.com>\ncommitter foo <bar@example.com>\n\nm\n");
}

#[test]
fn commit_tree_hash_errors() {
    assert_eq!(
        Commit::parse_tree_hash(b"parent x\n").unwrap_err(),
        "tree hash not found in commit object"
    );
    assert!(Commit::parse_tree_hash(&[0xff]).unwrap_err().starts_with("invalid commit content: "));
    assert_eq!(Commit::parse_tree_hash(b"a\r\ntree xyz\r\n").unwrap(), "xyz");
}

#[test]
fn commit_objects_in_the_store() {
    let mut store = ObjectStore::new();
    let c = create_commit_object(&mut store, &"tt".to_string(), &"hi".to_string(), None).unwrap();
    let (k, body) = store.load(&c).unwrap();
    assert_eq!(k, "commit");
    assert_eq!(
        String::from_utf8(body).unwrap(),
        "tree tt\nauthor foo<bar@example.com>\ncommitter foo<bar@example.com>\n\nhi\n"
    );
    assert_eq!(get_tree_hash_from_commit(&store, &c).unwrap(), "tt");
    let blob = save(&mut store, &Blob { content: vec![1] }).unwrap();
    assert_eq!(
        get_tree_hash_from_commit(&store, &blob).unwrap_err(),
        format!("object {} is not a commit", blob)
    );
    assert_eq!(current_tree_hash(&store, Some(c.clone())), Some("tt".to_string()));
    assert_eq!(current_tree_hash(&store, None), None);
}

#[test]
fn index_text_roundtrip() {
    let mut index = Index { entries: Vec::new() };
    assert!(index.is_empty());
    index.add(IndexEntry::new("a.txt", "h1", "create"));
    index.add(IndexEntry::new("d/b.txt", "h2", "change"));
    let text = index.to_text();
    assert_eq!(text, "create ./a.txt h1\nchange ./d/b.txt h2\n");
    let back = Index::parse(&text);
    assert_eq!(back.entries.len(), 2);
    assert_eq!(back.entries[1].path, "d/b.txt");
    assert_eq!(back.entries[1].hash, "h2");
    assert_eq!(back.entries[1].status, "change");
}

#[test]
fn index_parse_skips_short_lines() {
    let idx = Index::parse("one two\ns p h extra\r\n\nx y\n");
    assert_eq!(idx.entries.len(), 1);
    assert_eq!(idx.entries[0].status, "s");
    assert_eq!(idx.entries[0].path, "p");
    assert_eq!(idx.entries[0].hash, "h");
}

#[test]
fn index_find_mut_changes_first_match() {
    let mut index = Index { entries: Vec::new() };
    index.add(IndexEntry::new("a", "h1", "create"));
    index.add(IndexEntry::new("b", "h2", "create"));
    if let Some(e) = index.find_mut("b") {
        e.hash = "h3".to_string();
    }
    assert_eq!(index.entries[1].hash, "h3");
    assert!(index.find_mut("c").is_none());
}

#[test]
fn add_index_marks_create_or_change() {
    let tree = pairs(&[("known.txt", "old")]);
    let mut v: Vec<IndexEntry> = Vec::new();
    add_index(&mut v, &tree, "new.txt", &"h1".to_string());
    add_index(&mut v, &tree, "known.txt", &"h2".to_string());
    assert_eq!(v.len(), 2);
    assert_eq!((v[0].path.as_str(), v[0].hash.as_str(), v[0].status.as_str()), ("new.txt", "h1", "create"));
    assert_eq!((v[1].path.as_str(), v[1].hash.as_str(), v[1].status.as_str()), ("known.txt", "h2", "change"));
    add_index(&mut v, &tree, "new.txt", &"h9".to_string());
    assert_eq!(v.len(), 2);
    assert_eq!(v[0].hash, "h9");
}

#[test]
fn add_file_saves_blob() {
    let mut store = ObjectStore::new();
    let h = add_file(&mut store, &b"hello\n".to_vec()).unwrap();
    assert_eq!(h, "ce013625030ba8dba906f756967f9e9ca394464a");
    let mut index = Index { entries: Vec::new() };
    minigit::commands::add::add_file(&mut index, &mut store, &Vec::new(), "f.txt", b"hello\n".to_vec()).unwrap();
    assert_eq!(index.entries[0].hash, h);
    assert_eq!(index.entries[0].status, "create");
    let tree = pairs(&[("g.txt", "h0")]);
    minigit::commands::add::add_file(&mut index, &mut store, &tree, "g.txt", b"g\n".to_vec()).unwrap();
    assert_eq!(index.entries[1].status, "change");
    // adding a staged path again takes the new hash and keeps the status
    minigit::commands::add::add_file(&mut index, &mut store, &tree, "f.txt", b"other\n".to_vec()).unwrap();
    assert_eq!(index.entries.len(), 2);
    assert_ne!(index.entries[0].hash, h);
    assert_eq!(index.entries[0].status, "create");
}

#[test]
fn commit_command() {
    let mut store = ObjectStore::new();
    let empty = Index { entries: Vec::new() };
    assert_eq!(
        minigit::commands::commit::execute(&empty, &mut store, None, "m").unwrap_err(),
        "nothing to commit"
    );
    assert_eq!(store.files.len(), 0);
    let mut index = Index { entries: Vec::new() };
    let h = add_file(&mut store, &b"x".to_vec()).unwrap();
    index.add(IndexEntry::new("dir/x.txt", &h, "create"));
    let c = minigit::commands::commit::execute(&index, &mut store, Some("p".to_string()), "first").unwrap();
    let tree = get_tree_hash_from_commit(&store, &c).unwrap();
    assert_eq!(collect_tree_entries(&store, &tree).unwrap(), pairs(&[("dir/x.txt", &h)]));
    let t2 = create_tree_object(&mut store, &index.entries).unwrap();
    assert_eq!(t2, tree);
}

#[test]
fn head_refs() {
    assert_eq!(resolve_head("ref: refs/heads/main\n").unwrap(), "./.minigit/refs/heads/main");
    assert_eq!(resolve_head("  ref: x  ").unwrap(), "./.minigit/x");
    assert_eq!(resolve_head("abc").unwrap_err(), "invalid HEAD format");
    assert_eq!(current_commit(Some(" abc \n".to_string())), Some("abc".to_string()));
    assert_eq!(current_commit(Some(" \n".to_string())), None);
    assert_eq!(current_commit(None), None);
    assert_eq!(
        minigit::commit::commit_execute::get_parent_commit_hash(Some("h\n".to_string())),
        Some("h".to_string())
    );
}

#[test]
fn ignore_rules() {
    let patterns = vec!["a".to_string(), ".git".to_string()];
    assert!(is_ignored(".git", &patterns));
    assert!(!is_ignored("b", &patterns));
    assert_eq!(ignore_patterns(None), vec![".git", ".minigit"]);
    assert_eq!(
        ignore_patterns(Some("# comment\n//target\n\n  foo  \r\n".to_string())),
        vec![".git", ".minigit", "target", "foo"]
    );
}

#[test]
fn path_normalization() {
    assert_eq!(normalize_path("./src/main.rs"), "src/main.rs");
    assert_eq!(normalize_path("a//b/./c/../d/"), "a/b/c/d");
    assert_eq!(normalize_path("/abs/x"), "abs/x");
    assert_eq!(normalize_path("."), "");
}

#[test]
fn checkout_safety_rules() {
    let current = pairs(&[("a", "h1"), ("b", "h2")]);
    let target = pairs(&[("a", "h1"), ("b", "h3"), ("c", "h4")]);
    // b changes; its working copy matches the current tree; c is absent
    assert!(check_safety(&current, &target, &vec![None, Some("h2".to_string())], &vec![true, true, false]).is_ok());
    // b changes and was edited
    assert_eq!(
        check_safety(&current, &target, &vec![None, Some("hx".to_string())], &vec![true, true, false]).unwrap_err(),
        "error: Your local changes to 'b' would be overwritten by checkout.\nPlease commit your changes or stash them before you switch branches."
    );
    // b changes and is missing from the working directory
    assert_eq!(
        check_safety(&current, &target, &vec![None, None], &vec![true, true, false]).unwrap_err(),
        "error: Your local changes to 'b' would be overwritten by checkout."
    );
    // c is untracked and present
    assert_eq!(
        check_safety(&current, &target, &vec![None, Some("h2".to_string())], &vec![true, true, true]).unwrap_err(),
        "error: The following untracked file would be overwritten by checkout:\n  c"
    );
    // a removed file that is missing is fine
    let target2 = pairs(&[("a", "h1")]);
    assert!(check_safety(&current, &target2, &vec![None, None], &vec![true]).is_ok());
}

#[test]
fn checkout_plan_and_index() {
    let current = pairs(&[("a", "h1"), ("b", "h2"), ("gone", "h5")]);
    let target = pairs(&[("a", "h1"), ("b", "h3"), ("c", "h4")]);
    let (deletes, restores) = working_directory_plan(&current, &target);
    assert_eq!(deletes, vec!["gone".to_string()]);
    assert_eq!(restores, pairs(&[("b", "h3"), ("c", "h4")]));
    let index = update_index(&target);
    assert_eq!(index.to_text(), "change ./a h1\nchange ./b h3\nchange ./c h4\n");
}

#[test]
fn branch_listing_and_checks() {
    assert_eq!(current_branch("ref: refs/heads/dev\n"), "dev");
    assert_eq!(current_branch("abc"), "");
    let lines = branch_listing(&vec!["main".to_string(), "dev".to_string()], &"dev".to_string());
    assert_eq!(lines, vec!["Branches:", "  main", "* dev"]);
    let existing = vec!["main".to_string()];
    assert_eq!(
        check_new_branch(&["a".to_string(), "b".to_string()], &existing).unwrap_err(),
        "Only one branch can be created at a time."
    );
    assert_eq!(check_new_branch(&["main".to_string()], &existing).unwrap_err(), "Branch 'main' already exists.");
    assert!(check_new_branch(&["dev".to_string()], &existing).is_ok());
}

#[test]
fn status_lines() {
    let mut index = Index { entries: Vec::new() };
    assert_eq!(minigit::commands::status::execute(&index), vec!["nothing staged"]);
    index.add(IndexEntry::new("a.txt", "h", "create"));
    assert_eq!(minigit::commands::status::execute(&index), vec!["create a.txt"]);
}

#[test]
fn cat_file_commands() {
    let mut store = ObjectStore::new();
    let h = save(&mut store, &Blob { content: b"text".to_vec() }).unwrap();
    assert_eq!(minigit::commands::cat_file::show_type(&store, &h).unwrap(), "blob");
    assert_eq!(minigit::commands::cat_file::show_content(&store, &h).unwrap(), "text");
    let bad = save(&mut store, &Blob { content: vec![0xff] }).unwrap();
    assert!(minigit::commands::cat_file::show_content(&store, &bad).unwrap_err().starts_with("invalid object content: "));
}

#[test]
fn write_object_and_hex_helpers() {
    let mut store = ObjectStore::new();
    let data = encode_object("blob", b"hello\n");
    let h = minigit::common::object::write_object(&mut store, &data).unwrap();
    assert_eq!(h, "ce013625030ba8dba906f756967f9e9ca394464a");
    assert_eq!(minigit::common::object::hex_to_bytes("0aff"), vec![0x0a, 0xff]);
}

#[test]
fn commit_reads_back_every_staged_file() {
    let mut store = ObjectStore::new();
    let mut index = Index { entries: Vec::new() };
    let paths = ["a/b/c.txt", "top.txt", "a/d.txt", "e/f.txt", "a/b/g.txt"];
    let mut staged = Vec::new();
    for (i, p) in paths.iter().enumerate() {
        let h = add_file(&mut store, &format!("content {}", i).into_bytes()).unwrap();
        index.add(IndexEntry::new(p, &h, "create"));
        staged.push((p.to_string(), h));
    }
    let c = minigit::commands::commit::execute(&index, &mut store, None, "several").unwrap();
    let tree = get_tree_hash_from_commit(&store, &c).unwrap();
    let mut files = collect_tree_entries(&store, &tree).unwrap();
    assert_eq!(files.len(), staged.len());
    assert_eq!(files[0].0, "a/b/c.txt");
    assert_eq!(files[1].0, "a/b/g.txt");
    assert_eq!(files[2].0, "a/d.txt");
    assert_eq!(files[3].0, "e/f.txt");
    assert_eq!(files[4].0, "top.txt");
    files.sort();
    staged.sort();
    assert_eq!(files, staged);
}

#[test]
fn stored_compression_outcomes() {
    let mut store = ObjectStore::new();
    let digest = [0xceu8, 0x01, 0x36];
    let r = store.store_compressed(&digest, Ok(vec![1, 2, 3]));
    assert_eq!(r.unwrap(), "ce0136");
    assert_eq!(store.files, vec![("ce0136".to_string(), vec![1, 2, 3])]);
    let e = store.store_compressed(&digest, Err(DeflateFailure::Write("w".to_string())));
    assert_eq!(e.unwrap_err(), "failed to encode object: w");
    let e = store.store_compressed(&digest, Err(DeflateFailure::Finish("f".to_string())));
    assert_eq!(e.unwrap_err(), "failed to compress object: f");
    assert_eq!(store.files.len(), 1);
}

#[test]
fn error_texts_of_reading() {
    let mut store = ObjectStore::new();
    // bytes with no zero byte do not read as an object
    let h = store.save_bytes(b"no header here").unwrap();
    assert_eq!(store.load(&h).unwrap_err(), "invalid object format");
    // a body that is not UTF-8 does not show
    let blob = save(&mut store, &Blob { content: vec![0xff, 0xfe] }).unwrap();
    assert!(cat_file_print(&store, &blob).unwrap_err().starts_with("invalid object content: "));
    // reading the tree of something that is not a commit
    assert_eq!(
        get_tree_hash_from_commit(&store, &blob).unwrap_err(),
        format!("object {} is not a commit", blob)
    );
    let c = store.save_bytes(b"commit 9\0parent x\n").unwrap();
    assert_eq!(get_tree_hash_from_commit(&store, &c).unwrap_err(), "tree hash not found in commit object");
    let bad = store.save_bytes(b"commit 1\0\xff").unwrap();
    assert!(get_tree_hash_from_commit(&store, &bad).unwrap_err().starts_with("invalid commit object content: "));
    // tree bodies with a mode or name that is not UTF-8
    assert!(parse_tree_body(b"\xff x\0").err().unwrap().starts_with("invalid tree entry mode: "));
    assert!(parse_tree_body(b"100644 \xff\0").err().unwrap().starts_with("invalid tree entry name: "));
    let mut short = b"100644 a.txt\0".to_vec();
    short.extend(vec![0u8; 19]);
    assert_eq!(parse_tree_body(&short).err().unwrap(), "invalid tree entry format");
}

#[test]
fn empty_tree_has_git_name() {
    let mut store = ObjectStore::new();
    let h = save_tree(&mut store, &build_tree(Vec::new())).unwrap();
    assert_eq!(h, "4b825dc642cb6eb9a060e54bf8d69288fbee4904");
    assert_eq!(store.load(&h).unwrap(), ("tree".to_string(), Vec::new()));
}

#[test]
fn same_paths_build_the_same_tree() {
    let es = pairs(&[("a/b.txt", "01"), ("c.txt", "02"), ("a/d/e.txt", "03")]);
    assert_eq!(build_tree(es.clone()), build_tree(es.clone()));
    let mut s1 = ObjectStore::new();
    let mut s2 = ObjectStore::new();
    assert_eq!(save_tree(&mut s1, &build_tree(es.clone())).unwrap(), save_tree(&mut s2, &build_tree(es)).unwrap());
}

#[test]
fn saved_subtrees_come_before_their_parent() {
    let mut store = ObjectStore::new();
    let tree = build_tree(pairs(&[("a/b/c.txt", "01"), ("top.txt", "02")]));
    let root = save_tree(&mut store, &tree).unwrap();
    assert_eq!(store.files.len(), 3);
    assert_eq!(store.files[2].0, root);
    assert_eq!(cat_file_type(&store, &store.files[0].0).unwrap(), "tree");
    let listing = cat_file_print(&store, &store.files[1].0).unwrap();
    assert!(listing.contains(&store.files[0].0));
    assert!(listing.ends_with("    b\n"));
}

#[test]
fn head_tree_lookup() {
    let mut store = ObjectStore::new();
    assert!(head_tree_entries(&store, None).ok().unwrap().is_empty());
    let mut index = Index { entries: Vec::new() };
    let h = add_file(&mut store, &b"x".to_vec()).unwrap();
    index.add(IndexEntry::new("d/x.txt", &h, "create"));
    let c = minigit::commands::commit::execute(&index, &mut store, None, "m").unwrap();
    assert_eq!(head_tree_entries(&store, Some(c)).ok().unwrap(), pairs(&[("d/x.txt", &h)]));
    match head_tree_entries(&store, Some(h.clone())) {
        Err(HeadTreeFailure::Read(e)) => assert_eq!(e, format!("object {} is not a commit", h)),
        _ => panic!("expected a read error"),
    }
    let odd = store.save_bytes(b"commit 7\0tree x\n").unwrap();
    match head_tree_entries(&store, Some(odd)) {
        Err(HeadTreeFailure::BadTreeName(n)) => assert_eq!(n, "x"),
        _ => panic!("expected a bad tree name"),
    }
}

#[test]
fn branch_count_rule() {
    assert!(check_branch_count(&[]).is_ok());
    assert!(check_branch_count(&["a".to_string()]).is_ok());
    assert_eq!(
        check_branch_count(&["a".to_string(), "b".to_string()]).unwrap_err(),
        "Only one branch can be created at a time."
    );
}
