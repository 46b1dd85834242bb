use webpub::scanner::{flatten_entry, name_le, sort_entries};
use webpub::ScannedEntry;

fn file(name: &str, content: &[u8]) -> ScannedEntry {
    ScannedEntry::File {
        name: name.to_string(),
        permissions: 0o644,
        size: content.len() as u64,
        data: content.to_vec(),
    }
}

#[test]
fn test_name_le_is_raw_byte_order() {
    assert!(name_le("a.txt", "m.txt"));
    assert!(name_le("a", "a"));
    assert!(name_le("a", "ab"));
    assert!(!name_le("ab", "a"));
    assert!(!name_le("z.txt", "a.txt"));
    // Upper case sorts before lower case in raw bytes.
    assert!(name_le("Z", "a"));
}

#[test]
fn test_sort_entries_by_name() {
    let mut entries = vec![file("z.txt", b"z"), file("a.txt", b"a"), file("m.txt", b"m")];
    sort_entries(&mut entries);
    let names: Vec<&str> = entries.iter().map(|e| e.name()).collect();
    assert_eq!(names, vec!["a.txt", "m.txt", "z.txt"]);
}

#[test]
fn test_flatten_entry_lists_directory_then_children() {
    let entry = ScannedEntry::Directory {
        name: "".to_string(),
        permissions: 0o755,
        children: vec![
            file("a.txt", b"a"),
            ScannedEntry::Directory {
                name: "sub".to_string(),
                permissions: 0o755,
                children: vec![file("b.txt", b"b")],
            },
        ],
    };
    let flat = flatten_entry(entry);
    let names: Vec<&str> = flat.iter().map(|e| e.name()).collect();
    assert_eq!(names, vec!["", "a.txt", "sub", "b.txt"]);
    // The flattened directories carry no children of their own.
    match &flat[2] {
        ScannedEntry::Directory { children, .. } => assert!(children.is_empty()),
        _ => panic!("Expected directory"),
    }
}
