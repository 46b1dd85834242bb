use webpub::server::storage::Storage;
use webpub::Node;

#[test]
fn test_storage_init() {
    let storage = Storage::new();

    // A fresh store is empty
    assert!(storage.list_tokens().is_empty());
    assert!(storage.get_current_snapshot("example.com").is_none());
    assert!(storage.list_snapshots("example.com").is_empty());
}

#[test]
fn test_storage_chunks() {
    let mut storage = Storage::new();

    let hash = [1u8; 32];
    let data = b"test chunk data".to_vec();

    // Store chunk
    storage.store_chunk(&hash, &data);

    // Retrieve chunk
    let retrieved = storage.get_chunk(&hash);
    assert_eq!(retrieved, Some(data));

    // Non-existent chunk
    let missing = storage.get_chunk(&[2u8; 32]);
    assert_eq!(missing, None);
}

#[test]
fn test_storage_has_chunks() {
    let mut storage = Storage::new();

    let hash1 = [1u8; 32];
    let hash2 = [2u8; 32];
    let hash3 = [3u8; 32];

    storage.store_chunk(&hash1, b"data1");
    storage.store_chunk(&hash2, b"data2");

    let have = storage.has_chunks(&[hash1, hash2, hash3]);
    assert_eq!(have, vec![hash1, hash2]);
}

#[test]
fn test_storage_tokens() {
    let mut storage = Storage::new();

    let token = storage.add_token();
    assert!(storage.verify_token(&token));
    assert!(!storage.verify_token("invalid"));

    storage.revoke_token(&token);
    assert!(!storage.verify_token(&token));
}

#[test]
fn test_storage_snapshots() {
    let mut storage = Storage::new();

    let tree = Node::Directory {
        name: "".to_string(),
        permissions: 0o755,
        children: vec![],
        hash: [0u8; 32],
    };

    // Create snapshot
    let id = storage.create_snapshot("example.com", &tree, "");
    assert_eq!(id, 1);

    // Get current snapshot
    let current = storage.get_current_snapshot("example.com");
    assert!(current.is_some());
    assert_eq!(current.unwrap().0, id);

    // List snapshots
    let list = storage.list_snapshots("example.com");
    assert_eq!(list.len(), 1);
}

#[test]
fn test_storage_put_chunk_idempotent() {
    let mut storage = Storage::new();
    let hash = [5u8; 32];
    storage.store_chunk(&hash, b"same bytes");
    let first = storage.get_chunk(&hash);
    storage.store_chunk(&hash, b"same bytes");
    let second = storage.get_chunk(&hash);
    assert_eq!(first, second);
    assert_eq!(second, Some(b"same bytes".to_vec()));
    assert_eq!(storage.has_chunks(&[hash]), vec![hash]);
}

#[test]
fn test_storage_token_is_hex() {
    let mut storage = Storage::new();
    let token = storage.add_token();
    assert_eq!(token.len(), 64);
    let decoded = hex::decode(&token).expect("token should be hex");
    assert_eq!(decoded.len(), 32);
    // The stored form matches what the hex crate produces for those bytes.
    assert_eq!(hex::encode(&decoded), token);
}

#[test]
fn test_storage_insert_token() {
    let mut storage = Storage::new();
    storage.insert_token("operator-token");
    assert!(storage.verify_token("operator-token"));

    // Registering the same token twice keeps one row.
    storage.insert_token("operator-token");
    assert_eq!(storage.list_tokens().len(), 1);

    storage.revoke_token("operator-token");
    assert!(!storage.verify_token("operator-token"));
}

#[test]
fn test_storage_set_current_snapshot() {
    let mut storage = Storage::new();
    let tree = Node::Directory {
        name: "".to_string(),
        permissions: 0o755,
        children: vec![],
        hash: [0u8; 32],
    };

    let id1 = storage.create_snapshot("example.com", &tree, "t1");
    let id2 = storage.create_snapshot("example.com", &tree, "t2");
    assert_eq!((id1, id2), (1, 2));
    assert_eq!(storage.get_current_snapshot("example.com").unwrap().0, 2);

    // Roll back to the first snapshot.
    assert!(storage.set_current_snapshot("example.com", id1));
    assert_eq!(storage.get_current_snapshot("example.com").unwrap().0, 1);

    // Unknown snapshot or site: refused, nothing changes.
    assert!(!storage.set_current_snapshot("example.com", 99));
    assert!(!storage.set_current_snapshot("other.org", id1));
    assert_eq!(storage.get_current_snapshot("example.com").unwrap().0, 1);

    // The list reports newest id first, exactly one current.
    let list = storage.list_snapshots("example.com");
    assert_eq!(list.len(), 2);
    assert_eq!(list[0].0, 2);
    assert!(!list[0].1);
    assert_eq!(list[1].0, 1);
    assert!(list[1].1);
}
