use webpub::codec::{
    decode_client_message, decode_server_message, encode_client_message, encode_server_message,
};
use webpub::protocol::{ClientMessage, ServerMessage};

#[test]
fn test_auth_message_roundtrip() {
    let msg = ClientMessage::Auth { token: "secret123".to_string() };
    let bytes = encode_client_message(&msg);
    let decoded: ClientMessage = decode_client_message(&bytes).expect("should decode");

    match decoded {
        ClientMessage::Auth { token } => assert_eq!(token, "secret123"),
        _ => panic!("Wrong variant"),
    }
}

#[test]
fn test_have_chunks_message() {
    let msg = ClientMessage::HaveChunks {
        hashes: vec![[1u8; 32], [2u8; 32]],
    };
    let bytes = encode_client_message(&msg);
    let decoded: ClientMessage = decode_client_message(&bytes).expect("should decode");

    match decoded {
        ClientMessage::HaveChunks { hashes } => {
            assert_eq!(hashes.len(), 2);
        }
        _ => panic!("Wrong variant"),
    }
}

#[test]
fn test_server_messages() {
    let msg = ServerMessage::NeedChunks { hashes: vec![[1u8; 32]] };
    let bytes = encode_server_message(&msg);
    let _: ServerMessage = decode_server_message(&bytes).unwrap();

    let msg = ServerMessage::CommitOk { snapshot_id: 42 };
    let bytes = encode_server_message(&msg);
    let _: ServerMessage = decode_server_message(&bytes).unwrap();
}

#[test]
fn test_commit_tree_roundtrip() {
    let tree = webpub::Node::Directory {
        name: "".to_string(),
        permissions: 0o755,
        children: vec![],
        hash: [9u8; 32],
    };
    let msg = ClientMessage::CommitTree { hostname: "example.com".to_string(), tree };
    let bytes = encode_client_message(&msg);
    match decode_client_message(&bytes).expect("should decode") {
        ClientMessage::CommitTree { hostname, tree } => {
            assert_eq!(hostname, "example.com");
            match tree {
                webpub::Node::Directory { name, hash, children, .. } => {
                    assert_eq!(name, "");
                    assert_eq!(hash, [9u8; 32]);
                    assert!(children.is_empty());
                }
                _ => panic!("Wrong node"),
            }
        }
        _ => panic!("Wrong variant"),
    }
}

#[test]
fn test_snapshot_list_roundtrip() {
    let msg = ServerMessage::SnapshotList {
        snapshots: vec![(2, "today".to_string(), true), (1, "yesterday".to_string(), false)],
    };
    let bytes = encode_server_message(&msg);
    match decode_server_message(&bytes).expect("should decode") {
        ServerMessage::SnapshotList { snapshots } => {
            assert_eq!(snapshots.len(), 2);
            assert_eq!(snapshots[0].0, 2);
            assert_eq!(snapshots[0].1, "today");
            assert!(snapshots[0].2);
            assert_eq!(snapshots[1].0, 1);
            assert!(!snapshots[1].2);
        }
        _ => panic!("Wrong variant"),
    }
}

#[test]
fn test_rollback_message_roundtrip() {
    let msg = ClientMessage::Rollback { hostname: "example.com".to_string(), snapshot_id: None };
    let bytes = encode_client_message(&msg);
    match decode_client_message(&bytes).expect("should decode") {
        ClientMessage::Rollback { hostname, snapshot_id } => {
            assert_eq!(hostname, "example.com");
            assert!(snapshot_id.is_none());
        }
        _ => panic!("Wrong variant"),
    }

    let msg = ClientMessage::Rollback {
        hostname: "example.com".to_string(),
        snapshot_id: Some(7),
    };
    let bytes = encode_client_message(&msg);
    match decode_client_message(&bytes).expect("should decode") {
        ClientMessage::Rollback { snapshot_id, .. } => assert_eq!(snapshot_id, Some(7)),
        _ => panic!("Wrong variant"),
    }
}
