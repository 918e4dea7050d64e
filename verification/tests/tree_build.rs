use minigit::commit::tree::{build_tree, TreeEntry};

#[test]
fn test_single_file() {
    let entries = vec![("foo.txt".to_string(), "abc123".to_string())];
    let tree = build_tree(entries);

    assert_eq!(tree.entries.len(), 1);
    assert_eq!(
        tree.entries[0],
        TreeEntry::File {
            name: "foo.txt".to_string(),
            hash: "abc123".to_string(),
        }
    );
}

#[test]
fn test_multiple_files_flat() {
    let entries = vec![
        ("foo.txt".to_string(), "hash_a".to_string()),
        ("bar.txt".to_string(), "hash_b".to_string()),
    ];
    let tree = build_tree(entries);

    assert_eq!(tree.entries.len(), 2);
    assert!(
        tree.entries
            .iter()
            .all(|e| matches!(e, TreeEntry::File { .. }))
    );
}

#[test]
fn test_single_directory() {
    let entries = vec![
        ("src/main.rs".to_string(), "hash_a".to_string()),
        ("src/lib.rs".to_string(), "hash_b".to_string()),
    ];
    let tree = build_tree(entries);

    assert_eq!(tree.entries.len(), 1);
    if let TreeEntry::Directory { name, children } = &tree.entries[0] {
        assert_eq!(name, "src");
        assert_eq!(children.entries.len(), 2);
        assert!(
            children
                .entries
                .iter()
                .all(|e| matches!(e, TreeEntry::File { .. }))
        );
    } else {
        panic!("Expected directory 'src'");
    }
}

#[test]
fn test_mixed_files_and_directories() {
    let entries = vec![
        ("foo.txt".to_string(), "hash_a".to_string()),
        ("src/main.rs".to_string(), "hash_b".to_string()),
        ("src/lib.rs".to_string(), "hash_c".to_string()),
    ];
    let tree = build_tree(entries);

    assert_eq!(tree.entries.len(), 2);

    let dir_count = tree
        .entries
        .iter()
        .filter(|e| matches!(e, TreeEntry::Directory { .. }))
        .count();
    let file_count = tree
        .entries
        .iter()
        .filter(|e| matches!(e, TreeEntry::File { .. }))
        .count();
    assert_eq!(dir_count, 1);
    assert_eq!(file_count, 1);
}

#[test]
fn test_deeply_nested() {
    let entries = vec![("src/utils/helper.rs".to_string(), "hash_d".to_string())];
    let tree = build_tree(entries);

    assert_eq!(tree.entries.len(), 1);
    if let TreeEntry::Directory { name, children } = &tree.entries[0] {
        assert_eq!(name, "src");
        assert_eq!(children.entries.len(), 1);
        if let TreeEntry::Directory { name, children } = &children.entries[0] {
            assert_eq!(name, "utils");
            assert_eq!(children.entries.len(), 1);
            assert_eq!(
                children.entries[0],
                TreeEntry::File {
                    name: "helper.rs".to_string(),
                    hash: "hash_d".to_string(),
                }
            );
        } else {
            panic!("Expected directory 'utils'");
        }
    } else {
        panic!("Expected directory 'src'");
    }
}

#[test]
fn test_complex_structure() {
    let entries = vec![
        ("README.md".to_string(), "hash_a".to_string()),
        ("src/main.rs".to_string(), "hash_b".to_string()),
        ("src/lib.rs".to_string(), "hash_c".to_string()),
        ("src/utils/helper.rs".to_string(), "hash_d".to_string()),
        ("tests/test_main.rs".to_string(), "hash_e".to_string()),
    ];
    let tree = build_tree(entries);

    let file_count = tree
        .entries
        .iter()
        .filter(|e| matches!(e, TreeEntry::File { .. }))
        .count();
    let dir_count = tree
        .entries
        .iter()
        .filter(|e| matches!(e, TreeEntry::Directory { .. }))
        .count();
    assert_eq!(file_count, 1);
    assert_eq!(dir_count, 2);

    let src = tree
        .entries
        .iter()
        .find(|e| matches!(e, TreeEntry::Directory { name, .. } if name == "src"))
        .unwrap();
    if let TreeEntry::Directory { children, .. } = src {
        let src_files = children
            .entries
            .iter()
            .filter(|e| matches!(e, TreeEntry::File { .. }))
            .count();
        let src_dirs = children
            .entries
            .iter()
            .filter(|e| matches!(e, TreeEntry::Directory { .. }))
            .count();
        assert_eq!(src_files, 2);
        assert_eq!(src_dirs, 1);
    }
}

#[test]
fn test_empty_entries() {
    let entries: Vec<(String, String)> = vec![];
    let tree = build_tree(entries);
    assert_eq!(tree.entries.len(), 0);
}
