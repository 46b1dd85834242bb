use webpub::archive::{extract_archive, write_archive_bytes, ArchiveError};
use webpub::merkle::build_tree;
use webpub::ScannedEntry;

fn root_with(children: Vec<ScannedEntry>) -> ScannedEntry {
    ScannedEntry::Directory { name: "".to_string(), permissions: 0o755, children }
}

fn file(name: &str, content: &[u8]) -> ScannedEntry {
    ScannedEntry::File {
        name: name.to_string(),
        permissions: 0o644,
        size: content.len() as u64,
        data: content.to_vec(),
    }
}

fn entry_file_data<'a>(entry: &'a ScannedEntry, name: &str) -> Option<&'a Vec<u8>> {
    match entry {
        ScannedEntry::Directory { children, .. } => {
            for c in children {
                if let ScannedEntry::File { name: n, data, .. } = c {
                    if n == name {
                        return Some(data);
                    }
                }
            }
            None
        }
        _ => None,
    }
}

#[test]
fn test_write_archive_magic() {
    let entry = root_with(vec![file("test.txt", b"hello")]);
    let (tree, chunks) = build_tree(entry);

    let bytes = write_archive_bytes(&tree, &chunks).expect("archive should fit");

    // Verify magic bytes
    assert_eq!(&bytes[0..8], b"WEBPUB\0\0");
}

#[test]
fn test_write_archive_version() {
    let entry = root_with(vec![file("test.txt", b"hello")]);
    let (tree, chunks) = build_tree(entry);

    let bytes = write_archive_bytes(&tree, &chunks).expect("archive should fit");

    // Verify version byte
    assert_eq!(bytes[8], 1);
}

#[test]
fn test_roundtrip_single_file() {
    let content = b"Hello, world!";
    let entry = root_with(vec![file("test.txt", content)]);
    let (tree, chunks) = build_tree(entry);

    let bytes = write_archive_bytes(&tree, &chunks).expect("archive should fit");
    let extracted = extract_archive(&bytes).expect("archive should extract");

    assert_eq!(entry_file_data(&extracted, "test.txt").unwrap(), &content.to_vec());
}

#[test]
fn test_roundtrip_nested_structure() {
    let entry = root_with(vec![
        file("root.txt", b"root"),
        ScannedEntry::Directory {
            name: "subdir".to_string(),
            permissions: 0o755,
            children: vec![file("nested.txt", b"nested")],
        },
    ]);
    let (tree, chunks) = build_tree(entry);

    let bytes = write_archive_bytes(&tree, &chunks).expect("archive should fit");
    let extracted = extract_archive(&bytes).expect("archive should extract");

    assert_eq!(entry_file_data(&extracted, "root.txt").unwrap(), &b"root".to_vec());
    match &extracted {
        ScannedEntry::Directory { children, .. } => {
            let sub = children
                .iter()
                .find(|c| c.name() == "subdir")
                .expect("subdir should be extracted");
            assert_eq!(entry_file_data(sub, "nested.txt").unwrap(), &b"nested".to_vec());
            match sub {
                ScannedEntry::Directory { permissions, .. } => assert_eq!(*permissions, 0o755),
                _ => panic!("Expected directory"),
            }
        }
        _ => panic!("Expected directory"),
    }
}

#[test]
fn test_roundtrip_empty_directory() {
    let entry = root_with(vec![ScannedEntry::Directory {
        name: "empty".to_string(),
        permissions: 0o755,
        children: vec![],
    }]);
    let (tree, chunks) = build_tree(entry);

    let bytes = write_archive_bytes(&tree, &chunks).expect("archive should fit");
    let extracted = extract_archive(&bytes).expect("archive should extract");

    match &extracted {
        ScannedEntry::Directory { children, .. } => {
            assert_eq!(children.len(), 1);
            match &children[0] {
                ScannedEntry::Directory { name, children, .. } => {
                    assert_eq!(name, "empty");
                    assert!(children.is_empty());
                }
                _ => panic!("Expected empty directory"),
            }
        }
        _ => panic!("Expected directory"),
    }
}

#[test]
fn test_extract_bad_magic() {
    assert_eq!(extract_archive(b"not an archive at all.....").unwrap_err(), ArchiveError::BadMagic);
    assert_eq!(extract_archive(b"").unwrap_err(), ArchiveError::BadMagic);
}

#[test]
fn test_extract_bad_version() {
    let entry = root_with(vec![file("test.txt", b"hello")]);
    let (tree, chunks) = build_tree(entry);
    let mut bytes = write_archive_bytes(&tree, &chunks).expect("archive should fit");
    bytes[8] = 2;
    assert_eq!(extract_archive(&bytes).unwrap_err(), ArchiveError::BadVersion);
}

#[test]
fn test_extract_missing_chunk() {
    // A tree that references a chunk, archived with no chunk list at all.
    let tree = webpub::Node::Directory {
        name: "".to_string(),
        permissions: 0o755,
        children: vec![webpub::Node::File {
            name: "a.txt".to_string(),
            permissions: 0o644,
            size: 3,
            chunks: vec![[9u8; 32]],
            hash: [1u8; 32],
        }],
        hash: [2u8; 32],
    };
    let bytes = write_archive_bytes(&tree, &Vec::new()).expect("archive should fit");
    assert_eq!(extract_archive(&bytes).unwrap_err(), ArchiveError::MissingChunk);
}

#[test]
fn test_archive_deduplicates_identical_chunks() {
    // Two files with identical bytes: the payload stores the bytes once.
    let big = vec![42u8; 20000];
    let entry = root_with(vec![file("a.bin", &big), file("b.bin", &big)]);
    let (tree, chunks) = build_tree(entry);

    let bytes = write_archive_bytes(&tree, &chunks).expect("archive should fit");
    let chunk_payload: usize = chunks.iter().map(|c| c.data.len()).sum();
    assert!(bytes.len() < chunk_payload);

    let extracted = extract_archive(&bytes).expect("archive should extract");
    assert_eq!(entry_file_data(&extracted, "a.bin").unwrap(), &big);
    assert_eq!(entry_file_data(&extracted, "b.bin").unwrap(), &big);
}
