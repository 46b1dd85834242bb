//! The sync protocol's message shapes: one tagged variant set in each
//! direction. Each frame of the transport carries exactly one encoded
//! message.

use vstd::prelude::*;

use crate::hashing::Digest;
use crate::merkle::{digest_views, node_view, Node, NodeV};

verus! {

/// What a client may send.
#[derive(Debug)]
pub enum ClientMessage {
    Auth { token: String },
    HaveChunks { hashes: Vec<Digest> },
    ChunkData { hash: Digest, data: Vec<u8> },
    CommitTree { hostname: String, tree: Node },
    ListSnapshots { hostname: String },
    Rollback { hostname: String, snapshot_id: Option<u64> },
}

/// What the server may answer.
#[derive(Debug)]
pub enum ServerMessage {
    AuthOk,
    AuthFailed,
    NeedChunks { hashes: Vec<Digest> },
    ChunkAck { hash: Digest },
    CommitOk { snapshot_id: u64 },
    CommitFailed { reason: String },
    SnapshotList { snapshots: Vec<(u64, String, bool)> },
    RollbackOk { snapshot_id: u64 },
    RollbackFailed { reason: String },
}


/// The mathematical shape of a client message.
#[verifier::ext_equal]
pub enum ClientMessageV {
    Auth { token: Seq<char> },
    HaveChunks { hashes: Seq<Seq<u8>> },
    ChunkData { hash: Seq<u8>, data: Seq<u8> },
    CommitTree { hostname: Seq<char>, tree: NodeV },
    ListSnapshots { hostname: Seq<char> },
    Rollback { hostname: Seq<char>, snapshot_id: Option<u64> },
}

impl View for ClientMessage {
    type V = ClientMessageV;

    open spec fn view(&self) -> ClientMessageV {
        match self {
            ClientMessage::Auth { token } => ClientMessageV::Auth { token: token@ },
            ClientMessage::HaveChunks { hashes } => ClientMessageV::HaveChunks {
                hashes: digest_views(hashes@),
            },
            ClientMessage::ChunkData { hash, data } => ClientMessageV::ChunkData {
                hash: hash@,
                data: data@,
            },
            ClientMessage::CommitTree { hostname, tree } => ClientMessageV::CommitTree {
                hostname: hostname@,
                tree: node_view(*tree),
            },
            ClientMessage::ListSnapshots { hostname } => ClientMessageV::ListSnapshots {
                hostname: hostname@,
            },
            ClientMessage::Rollback { hostname, snapshot_id } => ClientMessageV::Rollback {
                hostname: hostname@,
                snapshot_id: *snapshot_id,
            },
        }
    }
}

/// The mathematical shape of a server message.
#[verifier::ext_equal]
pub enum ServerMessageV {
    AuthOk,
    AuthFailed,
    NeedChunks { hashes: Seq<Seq<u8>> },
    ChunkAck { hash: Seq<u8> },
    CommitOk { snapshot_id: u64 },
    CommitFailed { reason: Seq<char> },
    SnapshotList { snapshots: Seq<(u64, Seq<char>, bool)> },
    RollbackOk { snapshot_id: u64 },
    RollbackFailed { reason: Seq<char> },
}

/// The views of a snapshot-list entry sequence.
pub open spec fn snapshot_entry_views(s: Seq<(u64, String, bool)>) -> Seq<(u64, Seq<char>, bool)> {
    s.map_values(|t: (u64, String, bool)| (t.0, t.1@, t.2))
}

impl View for ServerMessage {
    type V = ServerMessageV;

    open spec fn view(&self) -> ServerMessageV {
        match self {
            ServerMessage::AuthOk => ServerMessageV::AuthOk,
            ServerMessage::AuthFailed => ServerMessageV::AuthFailed,
            ServerMessage::NeedChunks { hashes } => ServerMessageV::NeedChunks {
                hashes: digest_views(hashes@),
            },
            ServerMessage::ChunkAck { hash } => ServerMessageV::ChunkAck { hash: hash@ },
            ServerMessage::CommitOk { snapshot_id } => ServerMessageV::CommitOk {
                snapshot_id: *snapshot_id,
            },
            ServerMessage::CommitFailed { reason } => ServerMessageV::CommitFailed {
                reason: reason@,
            },
            ServerMessage::SnapshotList { snapshots } => ServerMessageV::SnapshotList {
                snapshots: snapshot_entry_views(snapshots@),
            },
            ServerMessage::RollbackOk { snapshot_id } => ServerMessageV::RollbackOk {
                snapshot_id: *snapshot_id,
            },
            ServerMessage::RollbackFailed { reason } => ServerMessageV::RollbackFailed {
                reason: reason@,
            },
        }
    }
}

} // verus!
