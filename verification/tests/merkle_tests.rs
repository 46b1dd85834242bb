use webpub::codec::{enc_node, read_node};
use webpub::Node;

#[test]
fn test_file_node_roundtrip() {
    let node = Node::File {
        name: "test.txt".to_string(),
        permissions: 0o644,
        size: 100,
        chunks: vec![[0u8; 32], [1u8; 32]],
        hash: [2u8; 32],
    };

    let mut bytes: Vec<u8> = Vec::new();
    enc_node(&mut bytes, &node);
    let (decoded, end) = read_node(&bytes, 0).expect("node should decode");

    assert_eq!(node, decoded);
    assert_eq!(end, bytes.len());
}

#[test]
fn test_directory_node_roundtrip() {
    let child = Node::File {
        name: "child.txt".to_string(),
        permissions: 0o644,
        size: 50,
        chunks: vec![[3u8; 32]],
        hash: [4u8; 32],
    };

    let node = Node::Directory {
        name: "mydir".to_string(),
        permissions: 0o755,
        children: vec![child],
        hash: [5u8; 32],
    };

    let mut bytes: Vec<u8> = Vec::new();
    enc_node(&mut bytes, &node);
    let (decoded, end) = read_node(&bytes, 0).expect("node should decode");

    assert_eq!(node, decoded);
    assert_eq!(end, bytes.len());
}

#[test]
fn test_node_decode_rejects_garbage() {
    assert!(read_node(&[9u8, 1, 2, 3], 0).is_none());
    assert!(read_node(&[], 0).is_none());
}
