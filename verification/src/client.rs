//! The client side of the sync conversation, as a state machine: the
//! transport work stays outside; this module decides which frame to send
//! next and what each server reply means.

use vstd::prelude::*;

use crate::chunker::{chunk_records, Chunk};
use crate::hashing::{clone_bytes, digest_eq, Digest};
use crate::merkle::{clone_node, Node};
use crate::protocol::{ClientMessage, ServerMessage};
use crate::server::storage::clone_string;

verus! {

/// How many digests one `HaveChunks` frame advertises.
pub const BATCH_SIZE: usize = 100;

/// Where the push conversation stands.
#[derive(Debug, Clone, Copy, PartialEq, Eq, Structural)]
pub enum PushPhase {
    /// `Auth` sent; an auth reply is awaited.
    AwaitAuth,
    /// A `HaveChunks` batch sent; a `NeedChunks` reply is awaited.
    AwaitNeed,
    /// A `ChunkData` frame sent; its acknowledgment is awaited.
    AwaitAck,
    /// `CommitTree` sent; the commit reply is awaited.
    AwaitCommit,
    /// The server reported the new snapshot id.
    Done,
    /// The conversation failed.
    Failed,
}

/// The push conversation: advertise digests in batches, upload what the
/// server lacks, then commit the tree.
pub struct PushDriver {
    pub tree: Node,
    pub chunks: Vec<Chunk>,
    pub hostname: String,
    pub phase: PushPhase,
    pub batch_start: usize,
    pub to_send: Vec<usize>,
    pub send_pos: usize,
}

/// The driver's bookkeeping stays within its chunk list.
pub open spec fn driver_wf(d: PushDriver) -> bool {
    &&& d.batch_start <= d.chunks@.len()
    &&& d.send_pos <= d.to_send@.len()
    &&& forall|i: int| 0 <= i < d.to_send@.len() ==> (#[trigger] d.to_send@[i]) < d.chunks@.len()
}

/// The frame the driver sends from a given position, and the bookkeeping
/// that goes with it: the next batch of at most `BATCH_SIZE` digests,
/// taken in order, while any are unadvertised; then one upload per marked
/// chunk; then the commit of the built tree. `to_send` is the upload list
/// in force when the frame is chosen.
pub open spec fn next_frame(
    pre: PushDriver,
    to_send: Seq<usize>,
    post: PushDriver,
    msg: ClientMessage,
) -> bool {
    &&& post.chunks == pre.chunks
    &&& post.tree == pre.tree
    &&& post.hostname == pre.hostname
    &&& post.to_send@ == to_send
    &&& match msg {
        ClientMessage::HaveChunks { hashes } => {
            &&& pre.batch_start < pre.chunks@.len()
            &&& hashes@.len() == (if pre.chunks@.len() - pre.batch_start > BATCH_SIZE {
                BATCH_SIZE as int
            } else {
                pre.chunks@.len() - pre.batch_start
            })
            &&& (forall|k: int|
                0 <= k < hashes@.len() ==> (#[trigger] hashes@[k]) == pre.chunks@[
                    pre.batch_start + k
                ].hash)
            &&& post.batch_start == pre.batch_start + hashes@.len()
            &&& post.send_pos == pre.send_pos
            &&& post.phase == PushPhase::AwaitNeed
        },
        ClientMessage::ChunkData { hash, data } => {
            &&& pre.batch_start == pre.chunks@.len()
            &&& pre.send_pos < to_send.len()
            &&& hash == pre.chunks@[to_send[pre.send_pos as int] as int].hash
            &&& data@ == pre.chunks@[to_send[pre.send_pos as int] as int].data@
            &&& post.batch_start == pre.batch_start
            &&& post.send_pos == pre.send_pos + 1
            &&& post.phase == PushPhase::AwaitAck
        },
        ClientMessage::CommitTree { hostname, tree } => {
            &&& pre.batch_start == pre.chunks@.len()
            &&& pre.send_pos == to_send.len()
            &&& hostname@ == pre.hostname@
            &&& tree@ == pre.tree@
            &&& post.batch_start == pre.batch_start
            &&& post.send_pos == pre.send_pos
            &&& post.phase == PushPhase::AwaitCommit
        },
        _ => false,
    }
}

/// The push failed for the stated reason and sends nothing further.
pub open spec fn failed_with(post: PushDriver, r: PushStep, reason: Seq<char>) -> bool {
    &&& post.phase == PushPhase::Failed
    &&& r matches PushStep::Fail { reason: t } && t@ == reason
}

/// What the driver does next.
pub enum PushStep {
    /// Send this frame and wait for the reply.
    Send { msg: ClientMessage },
    /// The push succeeded with this snapshot id.
    Done { snapshot_id: u64 },
    /// The push failed for this reason.
    Fail { reason: String },
}

impl PushDriver {
    /// Start a push of the built tree and chunks to the named site; the
    /// first frame to send is `Auth` with the token.
    pub fn new(tree: Node, chunks: Vec<Chunk>, hostname: String, token: String) -> (r: (
        PushDriver,
        ClientMessage,
    ))
        ensures
            driver_wf(r.0),
            r.0.phase == PushPhase::AwaitAuth,
            r.0.tree@ == tree@,
            chunk_records(r.0.chunks@) == chunk_records(chunks@),
            r.0.hostname@ == hostname@,
            r.0.batch_start == 0,
            r.0.to_send@.len() == 0,
            r.1 matches ClientMessage::Auth { token: t } && t@ == token@,
    {
        let d = PushDriver {
            tree,
            chunks,
            hostname,
            phase: PushPhase::AwaitAuth,
            batch_start: 0,
            to_send: Vec::new(),
            send_pos: 0,
        };
        (d, ClientMessage::Auth { token })
    }

    /// The next `HaveChunks` batch, or the next upload, or the commit.
    fn advance(&mut self) -> (r: PushStep)
        requires
            driver_wf(*old(self)),
        ensures
            driver_wf(*final(self)),
            r matches PushStep::Send { msg } && next_frame(
                *old(self),
                old(self).to_send@,
                *final(self),
                msg,
            ),
    {
        if self.batch_start < self.chunks.len() {
            let end = if self.chunks.len() - self.batch_start > BATCH_SIZE {
                self.batch_start + BATCH_SIZE
            } else {
                self.chunks.len()
            };
            let mut hashes: Vec<Digest> = Vec::new();
            let mut i = self.batch_start;
            while i < end
                invariant
                    self.batch_start <= i <= end,
                    end <= self.chunks@.len(),
                    hashes@.len() == i - self.batch_start,
                    forall|k: int|
                        0 <= k < hashes@.len() ==> (#[trigger] hashes@[k]) == self.chunks@[
                            self.batch_start + k
                        ].hash,
                decreases end - i,
            {
                hashes.push(self.chunks[i].hash);
                i += 1;
            }
            self.batch_start = end;
            self.phase = PushPhase::AwaitNeed;
            return PushStep::Send { msg: ClientMessage::HaveChunks { hashes } };
        }
        if self.send_pos < self.to_send.len() {
            let idx = self.to_send[self.send_pos];
            self.send_pos = self.send_pos + 1;
            self.phase = PushPhase::AwaitAck;
            let c = &self.chunks[idx];
            return PushStep::Send {
                msg: ClientMessage::ChunkData { hash: c.hash, data: clone_bytes(&c.data) },
            };
        }
        self.phase = PushPhase::AwaitCommit;
        PushStep::Send {
            msg: ClientMessage::CommitTree {
                hostname: clone_string(&self.hostname),
                tree: clone_node(&self.tree),
            },
        }
    }

    /// Take one server reply and answer with the next step.
    ///
    /// `AuthOk` and each acknowledgment move the conversation on to the
    /// next frame of the push; a `NeedChunks` reply first marks the
    /// reported digests for upload, keeping chunk order; a commit reply
    /// ends the push with the new snapshot id; a refusal or an unexpected
    /// reply fails it, carrying the server's reason.
    pub fn on_server_message(&mut self, msg: ServerMessage) -> (r: PushStep)
        requires
            driver_wf(*old(self)),
        ensures
            driver_wf(*final(self)),
            old(self).phase == PushPhase::AwaitAuth ==> match msg {
                ServerMessage::AuthOk => r matches PushStep::Send { msg: f } && next_frame(
                    *old(self),
                    old(self).to_send@,
                    *final(self),
                    f,
                ),
                ServerMessage::AuthFailed => failed_with(
                    *final(self),
                    r,
                    "Authentication failed"@,
                ),
                _ => failed_with(*final(self), r, "Unexpected response"@),
            },
            old(self).phase == PushPhase::AwaitNeed ==> match msg {
                ServerMessage::NeedChunks { hashes } => r matches PushStep::Send { msg: f }
                    && next_frame(
                    *old(self),
                    old(self).to_send@ + marks(
                        old(self).chunks@,
                        hashes@,
                        old(self).to_send@,
                        old(self).chunks@.len() as int,
                    ),
                    *final(self),
                    f,
                ),
                _ => failed_with(*final(self), r, "Unexpected response"@),
            },
            old(self).phase == PushPhase::AwaitAck ==> (r matches PushStep::Send { msg: f }
                && next_frame(*old(self), old(self).to_send@, *final(self), f)),
            old(self).phase == PushPhase::AwaitCommit ==> match msg {
                ServerMessage::CommitOk { snapshot_id } => r matches PushStep::Done {
                    snapshot_id: id,
                } && id == snapshot_id && final(self).phase == PushPhase::Done,
                ServerMessage::CommitFailed { reason } => failed_with(
                    *final(self),
                    r,
                    "Commit failed: "@ + reason@,
                ),
                _ => failed_with(*final(self), r, "Unexpected response"@),
            },
            old(self).phase == PushPhase::Done ==> r is Done,
            old(self).phase == PushPhase::Failed ==> r is Fail,
    {
        let phase = self.phase;
        match phase {
            PushPhase::AwaitAuth => match msg {
                ServerMessage::AuthOk => self.advance(),
                ServerMessage::AuthFailed => {
                    self.phase = PushPhase::Failed;
                    PushStep::Fail { reason: String::from_str("Authentication failed") }
                },
                _ => {
                    self.phase = PushPhase::Failed;
                    PushStep::Fail { reason: String::from_str("Unexpected response") }
                },
            },
            PushPhase::AwaitNeed => match msg {
                ServerMessage::NeedChunks { hashes } => {
                    self.mark_needed(&hashes);
                    self.advance()
                },
                _ => {
                    self.phase = PushPhase::Failed;
                    PushStep::Fail { reason: String::from_str("Unexpected response") }
                },
            },
            PushPhase::AwaitAck => self.advance(),
            PushPhase::AwaitCommit => match msg {
                ServerMessage::CommitOk { snapshot_id } => {
                    self.phase = PushPhase::Done;
                    PushStep::Done { snapshot_id }
                },
                ServerMessage::CommitFailed { reason } => {
                    self.phase = PushPhase::Failed;
                    let mut text = String::from_str("Commit failed: ");
                    text.append(reason.as_str());
                    PushStep::Fail { reason: text }
                },
                _ => {
                    self.phase = PushPhase::Failed;
                    PushStep::Fail { reason: String::from_str("Unexpected response") }
                },
            },
            PushPhase::Done => PushStep::Done { snapshot_id: 0 },
            PushPhase::Failed => PushStep::Fail { reason: String::from_str("Push failed") },
        }
    }

    /// Mark for upload every chunk of the list whose digest the server
    /// reported as needed and that is not yet marked, keeping chunk order.
    fn mark_needed(&mut self, needed: &Vec<Digest>)
        requires
            driver_wf(*old(self)),
        ensures
            driver_wf(*final(self)),
            final(self).chunks == old(self).chunks,
            final(self).tree == old(self).tree,
            final(self).hostname == old(self).hostname,
            final(self).phase == old(self).phase,
            final(self).batch_start == old(self).batch_start,
            final(self).send_pos == old(self).send_pos,
            final(self).to_send@ == old(self).to_send@ + marks(
                old(self).chunks@,
                needed@,
                old(self).to_send@,
                old(self).chunks@.len() as int,
            ),
    {
        let n = self.chunks.len();
        let mut i: usize = 0;
        proof {
            assert(self.to_send@ =~= old(self).to_send@ + marks(
                self.chunks@,
                needed@,
                old(self).to_send@,
                0,
            ));
        }
        while i < n
            invariant
                driver_wf(*self),
                n == self.chunks@.len(),
                0 <= i <= n,
                self.chunks == old(self).chunks,
                self.tree == old(self).tree,
                self.hostname == old(self).hostname,
                self.phase == old(self).phase,
                self.batch_start == old(self).batch_start,
                self.send_pos == old(self).send_pos,
                self.to_send@ == old(self).to_send@ + marks(
                    self.chunks@,
                    needed@,
                    old(self).to_send@,
                    i as int,
                ),
                forall|k: int|
                    old(self).to_send@.len() <= k < self.to_send@.len() ==> (
                    #[trigger] self.to_send@[k]) < i,
            decreases n - i,
        {
            let h = self.chunks[i].hash;
            let ghost pre = self.to_send@;
            let wanted = contains_digest(needed, &h);
            let seen = contains_index(&self.to_send, i);
            proof {
                if seen {
                    let k = choose|k: int|
                        0 <= k < self.to_send@.len() && self.to_send@[k] == i;
                    assert(k < old(self).to_send@.len());
                    assert(old(self).to_send@[k] == i);
                    assert(old(self).to_send@.contains(i as usize));
                } else {
                    assert(forall|k: int|
                        0 <= k < old(self).to_send@.len() ==> old(self).to_send@[k]
                            == self.to_send@[k]);
                    assert(!old(self).to_send@.contains(i as usize));
                }
            }
            if wanted && !seen {
                self.to_send.push(i);
            }
            proof {
                assert(marks(self.chunks@, needed@, old(self).to_send@, i + 1) =~= marks(
                    self.chunks@,
                    needed@,
                    old(self).to_send@,
                    i as int,
                ) + (if marked(self.chunks@, needed@, old(self).to_send@, i as int) {
                    seq![i as usize]
                } else {
                    Seq::<usize>::empty()
                }));
                assert(self.to_send@ =~= old(self).to_send@ + marks(
                    self.chunks@,
                    needed@,
                    old(self).to_send@,
                    i + 1,
                ));
            }
            i += 1;
        }
    }
}

/// Whether chunk `j` is to be marked: its digest is needed and it is not
/// yet marked.
pub open spec fn marked(chunks: Seq<Chunk>, needed: Seq<Digest>, already: Seq<usize>, j: int) -> bool {
    &&& (exists|q: int| 0 <= q < needed.len() && (#[trigger] needed[q])@ == chunks[j].hash@)
    &&& !already.contains(j as usize)
}

/// The indices of the chunks below `i` that are to be marked, in order.
pub open spec fn marks(chunks: Seq<Chunk>, needed: Seq<Digest>, already: Seq<usize>, i: int) -> Seq<
    usize,
>
    decreases i,
{
    if i <= 0 {
        Seq::empty()
    } else {
        marks(chunks, needed, already, i - 1) + (if marked(chunks, needed, already, i - 1) {
            seq![(i - 1) as usize]
        } else {
            Seq::empty()
        })
    }
}

/// Whether the list holds the digest.
fn contains_digest(list: &Vec<Digest>, d: &Digest) -> (r: bool)
    ensures
        r == exists|i: int| 0 <= i < list@.len() && (#[trigger] list@[i])@ == d@,
{
    let n = list.len();
    let mut i: usize = 0;
    while i < n
        invariant
            n == list@.len(),
            0 <= i <= n,
            forall|k: int| 0 <= k < i ==> (#[trigger] list@[k])@ != d@,
        decreases n - i,
    {
        if digest_eq(&list[i], d) {
            return true;
        }
        i += 1;
    }
    false
}

/// Whether the list holds the index.
fn contains_index(list: &Vec<usize>, x: usize) -> (r: bool)
    ensures
        r == list@.contains(x),
{
    let n = list.len();
    let mut i: usize = 0;
    while i < n
        invariant
            n == list@.len(),
            0 <= i <= n,
            forall|k: int| 0 <= k < i ==> (#[trigger] list@[k]) != x,
        decreases n - i,
    {
        if list[i] == x {
            proof {
                assert(list@[i as int] == x);
            }
            return true;
        }
        i += 1;
    }
    false
}

/// What a snapshot-list reply means: the listed snapshots, or why the
/// request failed.
pub fn interpret_list_reply(msg: ServerMessage) -> (r: Result<Vec<(u64, String, bool)>, String>)
    ensures
        msg is SnapshotList <==> r is Ok,
        msg matches ServerMessage::SnapshotList { snapshots } ==> r matches Ok(s) && s == snapshots,
{
    match msg {
        ServerMessage::SnapshotList { snapshots } => Ok(snapshots),
        _ => Err(String::from_str("Unexpected response")),
    }
}

/// What a rollback reply means: the restored snapshot id, or why the
/// rollback failed.
pub fn interpret_rollback_reply(msg: ServerMessage) -> (r: Result<u64, String>)
    ensures
        msg is RollbackOk <==> r is Ok,
        msg matches ServerMessage::RollbackOk { snapshot_id } ==> r matches Ok(id) && id
            == snapshot_id,
        msg matches ServerMessage::RollbackFailed { reason } ==> r matches Err(t) && t@
            == "Rollback failed: "@ + reason@,
{
    match msg {
        ServerMessage::RollbackOk { snapshot_id } => Ok(snapshot_id),
        ServerMessage::RollbackFailed { reason } => {
            let mut text = String::from_str("Rollback failed: ");
            text.append(reason.as_str());
            Err(text)
        },
        _ => Err(String::from_str("Unexpected response")),
    }
}

/// What an authentication reply means.
pub fn interpret_auth_reply(msg: &ServerMessage) -> (r: Result<(), String>)
    ensures
        msg is AuthOk <==> r is Ok,
{
    match msg {
        ServerMessage::AuthOk => Ok(()),
        ServerMessage::AuthFailed => Err(String::from_str("Authentication failed")),
        _ => Err(String::from_str("Unexpected response")),
    }
}

} // verus!
