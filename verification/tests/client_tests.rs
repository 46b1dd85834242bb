use webpub::client::{
    interpret_auth_reply, interpret_list_reply, interpret_rollback_reply, PushDriver, PushStep,
};
use webpub::merkle::build_tree;
use webpub::protocol::{ClientMessage, ServerMessage};
use webpub::ScannedEntry;

#[test]
fn test_push_driver_starts_with_auth() {
    let entry = ScannedEntry::Directory {
        name: "".to_string(),
        permissions: 0o755,
        children: vec![],
    };
    let (_, chunks) = build_tree(entry);
    let entry2 = ScannedEntry::Directory {
        name: "".to_string(),
        permissions: 0o755,
        children: vec![],
    };
    let (tree, _) = build_tree(entry2);
    let (_driver, first) =
        PushDriver::new(tree, chunks, "test.local".to_string(), "tok".to_string());
    match first {
        ClientMessage::Auth { token } => assert_eq!(token, "tok"),
        _ => panic!("the first frame should authenticate"),
    }
}

#[test]
fn test_push_driver_fails_on_bad_auth() {
    let entry = ScannedEntry::Directory {
        name: "".to_string(),
        permissions: 0o755,
        children: vec![],
    };
    let (tree, chunks) = build_tree(entry);
    let (mut driver, _) =
        PushDriver::new(tree, chunks, "test.local".to_string(), "tok".to_string());
    match driver.on_server_message(ServerMessage::AuthFailed) {
        PushStep::Fail { reason } => assert_eq!(reason, "Authentication failed"),
        _ => panic!("a refused token should fail the push"),
    }
}

#[test]
fn test_push_driver_commits_empty_tree() {
    // No chunks: the driver goes straight from auth to commit.
    let entry = ScannedEntry::Directory {
        name: "".to_string(),
        permissions: 0o755,
        children: vec![],
    };
    let (tree, chunks) = build_tree(entry);
    let (mut driver, _) =
        PushDriver::new(tree, chunks, "test.local".to_string(), "tok".to_string());
    match driver.on_server_message(ServerMessage::AuthOk) {
        PushStep::Send { msg: ClientMessage::CommitTree { hostname, .. } } => {
            assert_eq!(hostname, "test.local");
        }
        _ => panic!("an empty tree should commit at once"),
    }
    match driver.on_server_message(ServerMessage::CommitOk { snapshot_id: 4 }) {
        PushStep::Done { snapshot_id } => assert_eq!(snapshot_id, 4),
        _ => panic!("a commit reply should finish the push"),
    }
}

#[test]
fn test_interpret_rollback_reply() {
    assert_eq!(
        interpret_rollback_reply(ServerMessage::RollbackOk { snapshot_id: 3 }),
        Ok(3)
    );
    assert_eq!(
        interpret_rollback_reply(ServerMessage::RollbackFailed {
            reason: "Snapshot not found".to_string()
        }),
        Err("Rollback failed: Snapshot not found".to_string())
    );
    assert!(interpret_rollback_reply(ServerMessage::AuthOk).is_err());
}

#[test]
fn test_interpret_list_reply() {
    let reply = ServerMessage::SnapshotList {
        snapshots: vec![(2, "now".to_string(), true)],
    };
    let listed = interpret_list_reply(reply).expect("a snapshot list should be accepted");
    assert_eq!(listed, vec![(2, "now".to_string(), true)]);
    assert!(interpret_list_reply(ServerMessage::AuthFailed).is_err());
}

#[test]
fn test_interpret_auth_reply() {
    assert!(interpret_auth_reply(&ServerMessage::AuthOk).is_ok());
    assert!(interpret_auth_reply(&ServerMessage::AuthFailed).is_err());
    assert!(interpret_auth_reply(&ServerMessage::CommitOk { snapshot_id: 1 }).is_err());
}
