use webpub::merkle::build_tree;
use webpub::{Node, ScannedEntry};

fn root_with(children: Vec<ScannedEntry>) -> ScannedEntry {
    ScannedEntry::Directory { name: "".to_string(), permissions: 0o755, children }
}

fn file(name: &str, content: &[u8]) -> ScannedEntry {
    ScannedEntry::File {
        name: name.to_string(),
        permissions: 0o644,
        size: content.len() as u64,
        data: content.to_vec(),
    }
}

#[test]
fn test_build_tree_single_file() {
    let entry = root_with(vec![file("test.txt", b"hello")]);
    let (tree, chunks) = build_tree(entry);

    // Root should be a directory
    match &tree {
        Node::Directory { children, .. } => {
            assert_eq!(children.len(), 1);
            match &children[0] {
                Node::File { name, size, .. } => {
                    assert_eq!(name, "test.txt");
                    assert_eq!(*size, 5);
                }
                _ => panic!("Expected file"),
            }
        }
        _ => panic!("Expected directory"),
    }

    // Should have one chunk for "hello"
    assert_eq!(chunks.len(), 1);
}

#[test]
fn test_build_tree_deterministic() {
    let entry1 = root_with(vec![file("a.txt", b"aaa"), file("b.txt", b"bbb")]);
    let (tree1, chunks1) = build_tree(entry1);

    let entry2 = root_with(vec![file("a.txt", b"aaa"), file("b.txt", b"bbb")]);
    let (tree2, chunks2) = build_tree(entry2);

    // Same content should produce same hash and the same chunk digests
    assert_eq!(tree1.hash(), tree2.hash());
    let digests1: Vec<[u8; 32]> = chunks1.iter().map(|c| c.hash).collect();
    let digests2: Vec<[u8; 32]> = chunks2.iter().map(|c| c.hash).collect();
    assert_eq!(digests1, digests2);
}

#[test]
fn test_build_tree_empty_dir_preserved() {
    let entry = root_with(vec![ScannedEntry::Directory {
        name: "empty".to_string(),
        permissions: 0o755,
        children: vec![],
    }]);
    let (tree, chunks) = build_tree(entry);

    match &tree {
        Node::Directory { children, .. } => {
            assert_eq!(children.len(), 1);
            match &children[0] {
                Node::Directory { name, children: subchildren, .. } => {
                    assert_eq!(name, "empty");
                    assert!(subchildren.is_empty());
                }
                _ => panic!("Expected empty directory"),
            }
        }
        _ => panic!("Expected directory"),
    }

    // No chunks for empty directory
    assert!(chunks.is_empty());
}

#[test]
fn test_build_tree_empty_root() {
    let (tree, chunks) = build_tree(root_with(vec![]));
    match &tree {
        Node::Directory { name, children, .. } => {
            assert_eq!(name, "");
            assert!(children.is_empty());
        }
        _ => panic!("Expected directory"),
    }
    assert!(chunks.is_empty());
}

#[test]
fn test_build_tree_hash_depends_on_name() {
    let (t1, _) = build_tree(root_with(vec![file("a.txt", b"same")]));
    let (t2, _) = build_tree(root_with(vec![file("b.txt", b"same")]));
    assert_ne!(t1.hash(), t2.hash());
}

#[test]
fn test_build_tree_hash_depends_on_permissions() {
    let mk = |mode: u32| {
        root_with(vec![ScannedEntry::File {
            name: "a.txt".to_string(),
            permissions: mode,
            size: 4,
            data: b"same".to_vec(),
        }])
    };
    let (t1, _) = build_tree(mk(0o644));
    let (t2, _) = build_tree(mk(0o600));
    assert_ne!(t1.hash(), t2.hash());
}

#[test]
fn test_build_tree_file_hash_formula() {
    // A file's hash is the BLAKE3 digest of its chunk digests, in order.
    let entry = root_with(vec![file("test.txt", b"hello")]);
    let (tree, chunks) = build_tree(entry);
    match &tree {
        Node::Directory { children, .. } => match &children[0] {
            Node::File { chunks: digests, hash, .. } => {
                assert_eq!(digests.len(), chunks.len());
                let mut concat: Vec<u8> = Vec::new();
                for d in digests {
                    concat.extend_from_slice(d);
                }
                assert_eq!(*hash, *blake3::hash(&concat).as_bytes());
            }
            _ => panic!("Expected file"),
        },
        _ => panic!("Expected directory"),
    }
}
