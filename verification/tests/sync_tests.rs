use webpub::chunker::chunk_data;
use webpub::client::{PushDriver, PushStep};
use webpub::merkle::build_tree;
use webpub::protocol::{ClientMessage, ServerMessage};
use webpub::server::http::{serve_request, HttpReply};
use webpub::server::storage::Storage;
use webpub::server::sync::{handle_frame, FrameResult, SessionState, SyncSession};
use webpub::{Node, ScannedEntry};

fn root_with(children: Vec<ScannedEntry>) -> ScannedEntry {
    ScannedEntry::Directory { name: "".to_string(), permissions: 0o755, children }
}

fn file(name: &str, content: &[u8]) -> ScannedEntry {
    ScannedEntry::File {
        name: name.to_string(),
        permissions: 0o644,
        size: content.len() as u64,
        data: content.to_vec(),
    }
}

fn authed_session(storage: &mut Storage) -> SyncSession {
    let token = storage.add_token();
    let mut session = SyncSession::new(5);
    match handle_frame(&mut session, storage, ClientMessage::Auth { token }, "") {
        FrameResult::Reply { msg: ServerMessage::AuthOk, close: false } => {}
        _ => panic!("auth should succeed"),
    }
    session
}

#[test]
fn test_auth_rejects_bad_token() {
    let mut storage = Storage::new();
    let mut session = SyncSession::new(5);
    match handle_frame(
        &mut session,
        &mut storage,
        ClientMessage::Auth { token: "bogus".to_string() },
        "",
    ) {
        FrameResult::Reply { msg: ServerMessage::AuthFailed, close: true } => {}
        _ => panic!("bad token should be refused and the connection closed"),
    }
    assert_eq!(session.state, SessionState::Closed);
}

#[test]
fn test_frame_before_auth_closes() {
    let mut storage = Storage::new();
    let mut session = SyncSession::new(5);
    match handle_frame(
        &mut session,
        &mut storage,
        ClientMessage::ListSnapshots { hostname: "example.com".to_string() },
        "",
    ) {
        FrameResult::Silent { close: true } => {}
        _ => panic!("any frame but Auth should close an unauthenticated session"),
    }
}

#[test]
fn test_commit_requires_chunks() {
    let mut storage = Storage::new();
    let mut session = authed_session(&mut storage);

    // A tree referencing a chunk the server never received.
    let tree = Node::Directory {
        name: "".to_string(),
        permissions: 0o755,
        children: vec![Node::File {
            name: "index.html".to_string(),
            permissions: 0o644,
            size: 5,
            chunks: vec![[9u8; 32]],
            hash: [1u8; 32],
        }],
        hash: [2u8; 32],
    };

    match handle_frame(
        &mut session,
        &mut storage,
        ClientMessage::CommitTree { hostname: "example.com".to_string(), tree },
        "",
    ) {
        FrameResult::Reply { msg: ServerMessage::CommitFailed { reason }, close: false } => {
            assert!(reason.contains("Missing"));
            assert_eq!(reason, "Missing 1 chunks");
        }
        _ => panic!("commit with missing chunks should fail"),
    }

    // No snapshot row exists.
    assert!(storage.list_snapshots("example.com").is_empty());
    assert!(storage.get_current_snapshot("example.com").is_none());
}

#[test]
fn test_have_chunks_reports_needed_in_order() {
    let mut storage = Storage::new();
    let mut session = authed_session(&mut storage);

    let h1 = [1u8; 32];
    let h2 = [2u8; 32];
    let h3 = [3u8; 32];
    storage.store_chunk(&h2, b"two");

    match handle_frame(
        &mut session,
        &mut storage,
        ClientMessage::HaveChunks { hashes: vec![h1, h2, h3] },
        "",
    ) {
        FrameResult::Reply { msg: ServerMessage::NeedChunks { hashes }, close: false } => {
            assert_eq!(hashes, vec![h1, h3]);
        }
        _ => panic!("expected a NeedChunks reply"),
    }
}

fn commit_tree(storage: &mut Storage, session: &mut SyncSession, host: &str, body: &[u8]) -> u64 {
    let entry = root_with(vec![file("index.html", body)]);
    let (tree, chunks) = build_tree(entry);
    for c in chunks {
        match handle_frame(
            session,
            storage,
            ClientMessage::ChunkData { hash: c.hash, data: c.data },
            "",
        ) {
            FrameResult::Reply { msg: ServerMessage::ChunkAck { .. }, close: false } => {}
            _ => panic!("expected a chunk acknowledgment"),
        }
    }
    match handle_frame(
        session,
        storage,
        ClientMessage::CommitTree { hostname: host.to_string(), tree },
        "",
    ) {
        FrameResult::Reply { msg: ServerMessage::CommitOk { snapshot_id }, close: false } => {
            snapshot_id
        }
        other => panic!("expected the commit to pass, got {:?}", match other {
            FrameResult::Reply { msg, .. } => format!("{:?}", msg),
            FrameResult::Silent { .. } => "silence".to_string(),
        }),
    }
}

#[test]
fn test_rollback_to_previous() {
    let mut storage = Storage::new();
    let mut session = authed_session(&mut storage);

    let id1 = commit_tree(&mut storage, &mut session, "example.com", b"first");
    let id2 = commit_tree(&mut storage, &mut session, "example.com", b"second");
    assert_eq!((id1, id2), (1, 2));
    assert_eq!(storage.get_current_snapshot("example.com").unwrap().0, 2);

    // Rollback with no id picks the previous snapshot.
    match handle_frame(
        &mut session,
        &mut storage,
        ClientMessage::Rollback { hostname: "example.com".to_string(), snapshot_id: None },
        "",
    ) {
        FrameResult::Reply { msg: ServerMessage::RollbackOk { snapshot_id }, close: false } => {
            assert_eq!(snapshot_id, 1);
        }
        _ => panic!("rollback should pick snapshot 1"),
    }
    assert_eq!(storage.get_current_snapshot("example.com").unwrap().0, 1);

    // A third commit becomes current; exactly one row is current.
    let id3 = commit_tree(&mut storage, &mut session, "example.com", b"third");
    assert_eq!(id3, 3);
    assert_eq!(storage.get_current_snapshot("example.com").unwrap().0, 3);
    let current_rows = storage
        .list_snapshots("example.com")
        .iter()
        .filter(|r| r.1)
        .count();
    assert_eq!(current_rows, 1);
}

#[test]
fn test_rollback_without_previous_fails() {
    let mut storage = Storage::new();
    let mut session = authed_session(&mut storage);
    commit_tree(&mut storage, &mut session, "example.com", b"only");

    match handle_frame(
        &mut session,
        &mut storage,
        ClientMessage::Rollback { hostname: "example.com".to_string(), snapshot_id: None },
        "",
    ) {
        FrameResult::Reply { msg: ServerMessage::RollbackFailed { reason }, close: false } => {
            assert_eq!(reason, "No previous snapshot to rollback to");
        }
        _ => panic!("rollback without a previous snapshot should fail"),
    }
}

#[test]
fn test_dedup_on_push() {
    let mut storage = Storage::new();
    let mut session = authed_session(&mut storage);

    // Two files with identical bytes at least one minimum chunk long.
    let big = vec![7u8; 20000];
    let entry = root_with(vec![file("a.bin", &big), file("b.bin", &big)]);
    let (tree, chunks) = build_tree(entry);
    let digests: Vec<[u8; 32]> = chunks.iter().map(|c| c.hash).collect();

    for c in chunks {
        handle_frame(
            &mut session,
            &mut storage,
            ClientMessage::ChunkData { hash: c.hash, data: c.data },
            "",
        );
    }

    // After the first push both digests are known.
    let have = storage.has_chunks(&digests);
    assert_eq!(have, digests);

    // A second push of the same tree transfers nothing.
    match handle_frame(
        &mut session,
        &mut storage,
        ClientMessage::HaveChunks { hashes: digests.clone() },
        "",
    ) {
        FrameResult::Reply { msg: ServerMessage::NeedChunks { hashes }, close: false } => {
            assert!(hashes.is_empty());
        }
        _ => panic!("expected a NeedChunks reply"),
    }

    let _ = tree;
}

#[test]
fn test_push_and_serve() {
    // The full conversation, client driver against server state machine.
    let mut storage = Storage::new();
    let token = storage.add_token();
    let mut session = SyncSession::new(5);

    let entry = root_with(vec![
        file("index.html", b"<h1>Hello</h1>"),
        ScannedEntry::Directory {
            name: "css".to_string(),
            permissions: 0o755,
            children: vec![file("style.css", b"body { color: red; }")],
        },
    ]);
    let (tree, chunks) = build_tree(entry);

    let (mut driver, first) = PushDriver::new(tree, chunks, "test.local".to_string(), token);
    let mut outbound = first;
    let snapshot_id = loop {
        let reply = match handle_frame(&mut session, &mut storage, outbound, "now") {
            FrameResult::Reply { msg, close: false } => msg,
            _ => panic!("the server should answer every frame of a push"),
        };
        match driver.on_server_message(reply) {
            PushStep::Send { msg } => outbound = msg,
            PushStep::Done { snapshot_id } => break snapshot_id,
            PushStep::Fail { reason } => panic!("push failed: {}", reason),
        }
    };
    assert_eq!(snapshot_id, 1);

    // The deployed site serves its pages.
    match serve_request(&storage, "test.local", "/index.html") {
        HttpReply::Served { body, .. } => assert_eq!(body, b"<h1>Hello</h1>".to_vec()),
        other => panic!("expected a served body, got {:?}", other),
    }
    match serve_request(&storage, "test.local", "/css/style.css") {
        HttpReply::Served { body, .. } => assert_eq!(body, b"body { color: red; }".to_vec()),
        other => panic!("expected a served body, got {:?}", other),
    }
}

#[test]
fn test_chunk_upload_then_commit() {
    // Chunks uploaded one by one; the commit then passes and the chunks
    // reassemble through the read path.
    let mut storage = Storage::new();
    let mut session = authed_session(&mut storage);

    let body = b"page body".to_vec();
    let chunks = chunk_data(&body);
    assert_eq!(chunks.len(), 1);
    let digest = chunks[0].hash;

    match handle_frame(
        &mut session,
        &mut storage,
        ClientMessage::ChunkData { hash: digest, data: body.clone() },
        "",
    ) {
        FrameResult::Reply { msg: ServerMessage::ChunkAck { hash }, close: false } => {
            assert_eq!(hash, digest);
        }
        _ => panic!("expected a chunk acknowledgment"),
    }
    assert_eq!(storage.get_chunk(&digest), Some(body));
}
