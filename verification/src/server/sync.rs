//! The sync session: a server-side state machine over the framed message
//! protocol. Authentication first; then have/need negotiation, chunk
//! upload, commit, listing and rollback, one reply per frame, in order.

use vstd::prelude::*;

use crate::hashing::{hex_digit, Digest};
use crate::merkle::{digest_views, Node, NodeV};
use crate::protocol::{ClientMessage, ServerMessage};
use crate::server::storage::{
    chunks_view, current_row, has_current, has_site, has_token, site_id_of, site_snapshots,
    storage_has_chunk, storage_wf, Snapshot, Storage,
};

verus! {

/// Where a sync session stands.
#[derive(Debug, Clone, Copy, PartialEq, Eq, Structural)]
pub enum SessionState {
    AwaitingAuth,
    Ready,
    Closed,
}

/// One sync connection's state.
#[derive(Debug)]
pub struct SyncSession {
    pub state: SessionState,
    pub keep: usize,
}

/// The decimal digits of a number.
pub open spec fn dec_str(n: nat) -> Seq<char>
    decreases n,
{
    if n < 10 {
        seq![hex_digit(n as int)]
    } else {
        dec_str(n / 10).push(hex_digit((n % 10) as int))
    }
}

/// One decimal digit as a string slice.
fn digit_str(d: u64) -> (r: &'static str)
    requires
        d < 10,
    ensures
        r@ == seq![hex_digit(d as int)],
{
    proof {
        reveal_strlit("0");
        reveal_strlit("1");
        reveal_strlit("2");
        reveal_strlit("3");
        reveal_strlit("4");
        reveal_strlit("5");
        reveal_strlit("6");
        reveal_strlit("7");
        reveal_strlit("8");
        reveal_strlit("9");
    }
    match d {
        0 => "0",
        1 => "1",
        2 => "2",
        3 => "3",
        4 => "4",
        5 => "5",
        6 => "6",
        7 => "7",
        8 => "8",
        _ => {
            proof {
                assert(d == 9);
            }
            "9"
        },
    }
}

/// The decimal form of a number.
pub fn u64_to_string(x: u64) -> (r: String)
    ensures
        r@ == dec_str(x as nat),
    decreases x,
{
    if x < 10 {
        String::from_str(digit_str(x))
    } else {
        let mut s = u64_to_string(x / 10);
        s.append(digit_str(x % 10));
        s
    }
}

/// How many of the digests are unbound in the store, counting repeats.
pub open spec fn count_missing(m: Map<Seq<u8>, Seq<u8>>, ds: Seq<Seq<u8>>) -> nat
    decreases ds.len(),
{
    if ds.len() == 0 {
        0
    } else {
        count_missing(m, ds.drop_last()) + (if m.dom().contains(ds.last()) {
            0nat
        } else {
            1nat
        })
    }
}

/// How many chunk references of the tree the store does not hold.
pub open spec fn missing_count(m: Map<Seq<u8>, Seq<u8>>, t: NodeV) -> nat
    decreases t,
{
    match t {
        NodeV::File { chunks, .. } => count_missing(m, chunks),
        NodeV::Directory { children, .. } => missing_count_children(m, children),
    }
}

pub open spec fn missing_count_children(m: Map<Seq<u8>, Seq<u8>>, s: Seq<NodeV>) -> nat
    decreases s,
{
    if s.len() == 0 {
        0
    } else {
        missing_count_children(m, s.drop_last()) + missing_count(m, s.last())
    }
}

/// A count capped at what a 64-bit number can carry.
pub open spec fn sat64(n: nat) -> u64 {
    if n > u64::MAX {
        u64::MAX
    } else {
        n as u64
    }
}

/// Add under the cap.
fn sat_add(a: u64, b: u64) -> (r: u64)
    ensures
        r == sat64((a + b) as nat),
{
    if a > u64::MAX - b {
        u64::MAX
    } else {
        a + b
    }
}

/// Count the tree's chunk references the store does not hold, capped.
fn count_tree_missing(storage: &Storage, node: &Node) -> (r: u64)
    requires
        storage_wf(*storage),
    ensures
        r == sat64(missing_count(chunks_view(*storage), node@)),
    decreases *node,
{
    match node {
        Node::File { chunks, .. } => {
            let ghost ds = digest_views(chunks@);
            let n = chunks.len();
            let mut missing: u64 = 0;
            let mut i: usize = 0;
            proof {
                assert(ds.take(0) =~= Seq::<Seq<u8>>::empty());
            }
            while i < n
                invariant
                    storage_wf(*storage),
                    ds == digest_views(chunks@),
                    n == chunks@.len(),
                    ds.len() == n,
                    0 <= i <= n,
                    missing == sat64(count_missing(chunks_view(*storage), ds.take(i as int))),
                decreases n - i,
            {
                let present = storage.get_chunk(&chunks[i]).is_some();
                proof {
                    assert(ds.take(i + 1).drop_last() =~= ds.take(i as int));
                    assert(ds.take(i + 1).last() == ds[i as int]);
                    assert(storage_has_chunk(*storage, ds[i as int]) == chunks_view(
                        *storage,
                    ).dom().contains(ds[i as int]));
                }
                if !present {
                    missing = sat_add(missing, 1);
                }
                i += 1;
            }
            proof {
                assert(ds.take(n as int) =~= ds);
            }
            missing
        },
        Node::Directory { children, .. } => {
            let ghost m = chunks_view(*storage);
            let n = children.len();
            let mut missing: u64 = 0;
            let mut i: usize = 0;
            proof {
                crate::merkle::lemma_node_views(children@);
                assert(crate::merkle::node_views(children@).take(0) =~= Seq::<NodeV>::empty());
            }
            while i < n
                invariant
                    storage_wf(*storage),
                    m == chunks_view(*storage),
                    *node is Directory,
                    (*node)->Directory_children == *children,
                    n == children@.len(),
                    crate::merkle::node_views(children@).len() == n,
                    forall|k: int|
                        0 <= k < n ==> #[trigger] crate::merkle::node_views(children@)[k]
                            == children@[k]@,
                    0 <= i <= n,
                    missing == sat64(missing_count_children(
                        m,
                        crate::merkle::node_views(children@).take(i as int),
                    )),
                decreases n - i,
            {
                proof {
                    assert(decreases_to!(*node => (*node)->Directory_children));
                    assert(decreases_to!((*node)->Directory_children
                        => (*node)->Directory_children@));
                    assert(decreases_to!(
                        (*node)->Directory_children@ => (*node)->Directory_children@[i as int]
                    ));
                }
                let sub = count_tree_missing(storage, &children[i]);
                missing = sat_add(missing, sub);
                proof {
                    let nv = crate::merkle::node_views(children@);
                    assert(nv.take(i + 1).drop_last() =~= nv.take(i as int));
                    assert(nv.take(i + 1).last() == children@[i as int]@);
                }
                i += 1;
            }
            proof {
                let nv = crate::merkle::node_views(children@);
                assert(nv.take(n as int) =~= nv);
            }
            missing
        },
    }
}

/// The reason a commit with unbound chunk references fails with.
pub open spec fn missing_reason(n: nat) -> Seq<char> {
    "Missing "@ + dec_str(n) + " chunks"@
}

/// The snapshot-list reply entries for a site: (id, created_at,
/// is_current), newest id first.
pub open spec fn snapshot_entries(s: Storage, host: Seq<char>) -> Seq<(u64, Seq<char>, bool)> {
    if !has_site(s, host) {
        Seq::empty()
    } else {
        let snaps = site_snapshots(s, site_id_of(s, host));
        Seq::new(snaps.len(), |i: int| {
            let row = snaps[snaps.len() - 1 - i];
            (row.id, row.created_at@, row.is_current)
        })
    }
}

/// The views of the exec snapshot-list entries.
pub open spec fn entry_views(v: Seq<(u64, String, bool)>) -> Seq<(u64, Seq<char>, bool)> {
    v.map_values(|t: (u64, String, bool)| (t.0, t.1@, t.2))
}

impl SyncSession {
    /// A fresh session that has seen no frame yet.
    pub fn new(keep: usize) -> (s: SyncSession)
        ensures
            s.state == SessionState::AwaitingAuth,
            s.keep == keep,
    {
        SyncSession { state: SessionState::AwaitingAuth, keep }
    }
}


/// What a successful commit does to the store: the site exists, every
/// earlier snapshot of it stops being current, and a new current row with
/// the committed tree and the next id is appended; chunks and tokens are
/// untouched.
pub open spec fn commit_effect(
    pre: Storage,
    post: Storage,
    host: Seq<char>,
    t: NodeV,
    created: Seq<char>,
    id: u64,
) -> bool {
    &&& id == pre.next_snapshot_id
    &&& post.next_snapshot_id == id + 1
    &&& has_site(post, host)
    &&& post.snapshots@.len() == pre.snapshots@.len() + 1
    &&& post.snapshots@.last().id == id
    &&& post.snapshots@.last().site_id == site_id_of(post, host)
    &&& post.snapshots@.last().tree@ == t
    &&& post.snapshots@.last().created_at@ == created
    &&& post.snapshots@.last().is_current
    &&& (forall|i: int|
        0 <= i < pre.snapshots@.len() ==> post.snapshots@[i] == (
        if pre.snapshots@[i].site_id == site_id_of(post, host) {
            crate::server::storage::cleared(#[trigger] pre.snapshots@[i])
        } else {
            pre.snapshots@[i]
        }))
    &&& has_current(post, site_id_of(post, host))
    &&& current_row(post, site_id_of(post, host)) == post.snapshots@.last()
    &&& post.shards == pre.shards
    &&& post.tokens == pre.tokens
}

/// What a successful rollback does to the store: exactly the named
/// snapshot is current for its site afterwards; ids, chunks, sites and
/// tokens are untouched.
pub open spec fn rollback_effect(pre: Storage, post: Storage, host: Seq<char>, id: u64) -> bool {
    &&& post.snapshots@.len() == pre.snapshots@.len()
    &&& has_current(post, site_id_of(pre, host))
    &&& current_row(post, site_id_of(pre, host)).id == id
    &&& (forall|i: int|
        0 <= i < pre.snapshots@.len() ==> (#[trigger] post.snapshots@[i]).id
            == pre.snapshots@[i].id && post.snapshots@[i].site_id == pre.snapshots@[i].site_id
            && post.snapshots@[i].tree == pre.snapshots@[i].tree)
    &&& post.shards == pre.shards
    &&& post.sites == pre.sites
    &&& post.tokens == pre.tokens
    &&& post.next_site_id == pre.next_site_id
    &&& post.next_snapshot_id == pre.next_snapshot_id
}

/// Whether the site knows a snapshot with the given id.
pub open spec fn snapshot_of_site(s: Storage, host: Seq<char>, id: u64) -> bool {
    has_site(s, host) && exists|i: int|
        0 <= i < s.snapshots@.len() && (#[trigger] s.snapshots@[i]).id == id
            && s.snapshots@[i].site_id == site_id_of(s, host)
}

/// Answer one frame of the sync conversation.
///
/// Before authentication only `Auth` is taken: a registered token opens
/// the session, anything else closes it. Once ready, `HaveChunks` answers
/// with the digests the store lacks in input order, `ChunkData` stores the
/// chunk and acknowledges it, `CommitTree` refuses a tree with unbound
/// chunk references and otherwise installs a new current snapshot,
/// `ListSnapshots` reports the site's rows newest first, and `Rollback`
/// makes the named snapshot current, or the second-newest when none is
/// named.
pub fn handle_frame(
    session: &mut SyncSession,
    storage: &mut Storage,
    msg: ClientMessage,
    created_at: &str,
) -> (r: FrameResult)
    requires
        storage_wf(*old(storage)),
        old(storage).next_site_id < u64::MAX,
        old(storage).next_snapshot_id < u64::MAX,
    ensures
        storage_wf(*final(storage)),
        final(session).keep == old(session).keep,
        old(session).state == SessionState::Closed ==> (r matches FrameResult::Silent {
            close: true,
        } && *final(storage) == *old(storage) && final(session).state == SessionState::Closed),
        old(session).state == SessionState::AwaitingAuth ==> match msg {
            ClientMessage::Auth { token } => {
                if has_token(*old(storage), token@) {
                    &&& r matches FrameResult::Reply { msg: ServerMessage::AuthOk, close: false }
                    &&& final(session).state == SessionState::Ready
                    &&& *final(storage) == *old(storage)
                } else {
                    &&& r matches FrameResult::Reply {
                        msg: ServerMessage::AuthFailed,
                        close: true,
                    }
                    &&& final(session).state == SessionState::Closed
                    &&& *final(storage) == *old(storage)
                }
            },
            _ => r matches FrameResult::Silent { close: true } && final(session).state
                == SessionState::Closed && *final(storage) == *old(storage),
        },
        old(session).state == SessionState::Ready ==> final(session).state == SessionState::Ready
            && match msg {
            ClientMessage::Auth { .. } => r matches FrameResult::Silent { close: false }
                && *final(storage) == *old(storage),
            ClientMessage::HaveChunks { hashes } => {
                &&& r matches FrameResult::Reply {
                    msg: ServerMessage::NeedChunks { hashes: need },
                    close: false,
                } && need@ == hashes@.filter(
                    |h: Digest| !storage_has_chunk(*old(storage), h@),
                )
                &&& *final(storage) == *old(storage)
            },
            ClientMessage::ChunkData { hash, data } => {
                &&& r matches FrameResult::Reply {
                    msg: ServerMessage::ChunkAck { hash: h2 },
                    close: false,
                } && h2@ == hash@
                &&& chunks_view(*final(storage)) == chunks_view(*old(storage)).insert(
                    hash@,
                    data@,
                )
                &&& final(storage).sites == old(storage).sites
                &&& final(storage).snapshots == old(storage).snapshots
                &&& final(storage).tokens == old(storage).tokens
            },
            ClientMessage::CommitTree { hostname, tree } => {
                let miss = missing_count(chunks_view(*old(storage)), tree@);
                if miss > 0 {
                    &&& r matches FrameResult::Reply {
                        msg: ServerMessage::CommitFailed { reason },
                        close: false,
                    } && reason@ == missing_reason(sat64(miss) as nat)
                    &&& *final(storage) == *old(storage)
                } else {
                    r matches FrameResult::Reply {
                        msg: ServerMessage::CommitOk { snapshot_id },
                        close: false,
                    } && commit_effect(
                        *old(storage),
                        *final(storage),
                        hostname@,
                        tree@,
                        created_at@,
                        snapshot_id,
                    )
                }
            },
            ClientMessage::ListSnapshots { hostname } => {
                &&& r matches FrameResult::Reply {
                    msg: ServerMessage::SnapshotList { snapshots },
                    close: false,
                } && entry_views(snapshots@) == snapshot_entries(*old(storage), hostname@)
                &&& *final(storage) == *old(storage)
            },
            ClientMessage::Rollback { hostname, snapshot_id } => match snapshot_id {
                Some(id) => {
                    if snapshot_of_site(*old(storage), hostname@, id) {
                        r matches FrameResult::Reply {
                            msg: ServerMessage::RollbackOk { snapshot_id: rid },
                            close: false,
                        } && rid == id && rollback_effect(
                            *old(storage),
                            *final(storage),
                            hostname@,
                            id,
                        )
                    } else {
                        &&& r matches FrameResult::Reply {
                            msg: ServerMessage::RollbackFailed { reason },
                            close: false,
                        } && reason@ == "Snapshot not found"@
                        &&& *final(storage) == *old(storage)
                    }
                },
                None => {
                    if snapshot_entries(*old(storage), hostname@).len() < 2 {
                        &&& r matches FrameResult::Reply {
                            msg: ServerMessage::RollbackFailed { reason },
                            close: false,
                        } && reason@ == "No previous snapshot to rollback to"@
                        &&& *final(storage) == *old(storage)
                    } else {
                        r matches FrameResult::Reply {
                            msg: ServerMessage::RollbackOk { snapshot_id: rid },
                            close: false,
                        } && rid == snapshot_entries(*old(storage), hostname@)[1].0
                            && rollback_effect(
                            *old(storage),
                            *final(storage),
                            hostname@,
                            rid,
                        )
                    }
                },
            },
        },
{
    let st = session.state;
    match st {
        SessionState::Closed => FrameResult::Silent { close: true },
        SessionState::AwaitingAuth => match msg {
            ClientMessage::Auth { token } => {
                if storage.verify_token(token.as_str()) {
                    session.state = SessionState::Ready;
                    FrameResult::Reply { msg: ServerMessage::AuthOk, close: false }
                } else {
                    session.state = SessionState::Closed;
                    FrameResult::Reply { msg: ServerMessage::AuthFailed, close: true }
                }
            },
            _ => {
                session.state = SessionState::Closed;
                FrameResult::Silent { close: true }
            },
        },
        SessionState::Ready => match msg {
            ClientMessage::Auth { .. } => FrameResult::Silent { close: false },
            ClientMessage::HaveChunks { hashes } => {
                let need = need_chunks(storage, &hashes);
                FrameResult::Reply { msg: ServerMessage::NeedChunks { hashes: need }, close: false }
            },
            ClientMessage::ChunkData { hash, data } => {
                storage.store_chunk(&hash, data.as_slice());
                FrameResult::Reply { msg: ServerMessage::ChunkAck { hash }, close: false }
            },
            ClientMessage::CommitTree { hostname, tree } => {
                let missing = count_tree_missing(storage, &tree);
                if missing > 0 {
                    let num = u64_to_string(missing);
                    let mut reason = String::from_str("Missing ");
                    reason.append(num.as_str());
                    reason.append(" chunks");
                    proof {
                        assert(reason@ == missing_reason(missing as nat));
                    }
                    FrameResult::Reply {
                        msg: ServerMessage::CommitFailed { reason },
                        close: false,
                    }
                } else {
                    let snapshot_id = storage.create_snapshot(
                        hostname.as_str(),
                        &tree,
                        created_at,
                    );
                    FrameResult::Reply {
                        msg: ServerMessage::CommitOk { snapshot_id },
                        close: false,
                    }
                }
            },
            ClientMessage::ListSnapshots { hostname } => {
                let rows = storage.list_snapshots(hostname.as_str());
                let snapshots = to_protocol_entries(rows);
                proof {
                    assert(entry_views(snapshots@) =~= snapshot_entries(*storage, hostname@));
                }
                FrameResult::Reply {
                    msg: ServerMessage::SnapshotList { snapshots },
                    close: false,
                }
            },
            ClientMessage::Rollback { hostname, snapshot_id } => {
                let target: u64 = match snapshot_id {
                    Some(id) => id,
                    None => {
                        let rows = storage.list_snapshots(hostname.as_str());
                        if rows.len() < 2 {
                            proof {
                                lemma_entries_len(*storage, hostname@, rows@);
                            }
                            return FrameResult::Reply {
                                msg: ServerMessage::RollbackFailed {
                                    reason: String::from_str(
                                        "No previous snapshot to rollback to",
                                    ),
                                },
                                close: false,
                            };
                        }
                        proof {
                            lemma_entries_len(*storage, hostname@, rows@);
                        }
                        rows[1].0
                    },
                };
                proof {
                    if snapshot_id is None {
                        lemma_prev_exists(*storage, hostname@, target);
                    }
                }
                let ok = storage.set_current_snapshot(hostname.as_str(), target);
                if ok {
                    FrameResult::Reply {
                        msg: ServerMessage::RollbackOk { snapshot_id: target },
                        close: false,
                    }
                } else {
                    FrameResult::Reply {
                        msg: ServerMessage::RollbackFailed {
                            reason: String::from_str("Snapshot not found"),
                        },
                        close: false,
                    }
                }
            },
        },
    }
}

/// The digests of the batch the store lacks, in input order.
fn need_chunks(storage: &Storage, hashes: &Vec<Digest>) -> (r: Vec<Digest>)
    requires
        storage_wf(*storage),
    ensures
        r@ == hashes@.filter(|h: Digest| !storage_has_chunk(*storage, h@)),
{
    let n = hashes.len();
    let mut out: Vec<Digest> = Vec::new();
    let mut i: usize = 0;
    proof {
        reveal(Seq::filter);
        assert(hashes@.take(0) =~= Seq::<Digest>::empty());
    }
    while i < n
        invariant
            storage_wf(*storage),
            n == hashes@.len(),
            0 <= i <= n,
            out@ == hashes@.take(i as int).filter(|h: Digest| !storage_has_chunk(*storage, h@)),
        decreases n - i,
    {
        let h: Digest = hashes[i];
        let present = storage.get_chunk(&h).is_some();
        if !present {
            out.push(h);
        }
        proof {
            reveal(Seq::filter);
            assert(hashes@.take(i + 1).drop_last() =~= hashes@.take(i as int));
            assert(hashes@.take(i + 1).last() == h);
        }
        i += 1;
    }
    proof {
        assert(hashes@.take(n as int) =~= hashes@);
    }
    out
}

/// Turn the store's (id, is_current, created_at) rows into the protocol's
/// (id, created_at, is_current) entries.
fn to_protocol_entries(mut rows: Vec<(u64, bool, String)>) -> (r: Vec<(u64, String, bool)>)
    ensures
        r@.len() == rows@.len(),
        forall|i: int|
            0 <= i < r@.len() ==> (#[trigger] r@[i]).0 == rows@[i].0 && r@[i].1@ == rows@[i].2@
                && r@[i].2 == rows@[i].1,
{
    let ghost rows0 = rows@;
    let total = rows.len();
    let mut out: Vec<(u64, String, bool)> = Vec::new();
    let mut i: usize = 0;
    while rows.len() > 0
        invariant
            total == rows0.len(),
            0 <= i <= rows0.len(),
            i + rows@.len() == rows0.len(),
            forall|k: int| 0 <= k < rows@.len() ==> #[trigger] rows@[k] == rows0[k + i],
            out@.len() == i,
            forall|k: int|
                0 <= k < i ==> (#[trigger] out@[k]).0 == rows0[k].0 && out@[k].1@ == rows0[k].2@
                    && out@[k].2 == rows0[k].1,
        decreases rows@.len(),
    {
        let (id, cur, at) = rows.remove(0);
        out.push((id, at, cur));
        i += 1;
    }
    out
}

/// The exec snapshot list and the spec entries have one length.
proof fn lemma_entries_len(s: Storage, host: Seq<char>, rows: Seq<(u64, bool, String)>)
    requires
        storage_wf(s),
        !has_site(s, host) ==> rows.len() == 0,
        has_site(s, host) ==> {
            let snaps = site_snapshots(s, site_id_of(s, host));
            &&& rows.len() == snaps.len()
            &&& (forall|i: int|
                0 <= i < rows.len() ==> {
                    let row = snaps[snaps.len() - 1 - i];
                    &&& (#[trigger] rows[i]).0 == row.id
                    &&& rows[i].1 == row.is_current
                    &&& rows[i].2@ == row.created_at@
                })
        },
    ensures
        snapshot_entries(s, host).len() == rows.len(),
        forall|i: int|
            0 <= i < rows.len() ==> (#[trigger] rows[i]).0 == snapshot_entries(s, host)[i].0,
{
}

/// An element of a filtered sequence is an element of the sequence.
proof fn lemma_filter_elem_in(s: Seq<Snapshot>, pred: spec_fn(Snapshot) -> bool, k: int)
    requires
        0 <= k < s.filter(pred).len(),
    ensures
        s.contains(s.filter(pred)[k]),
    decreases s.len(),
{
    reveal(Seq::filter);
    if s.len() > 0 {
        let fl = s.filter(pred);
        let prev = s.drop_last().filter(pred);
        if pred(s.last()) && k == fl.len() - 1 {
            assert(fl[k] == s.last());
            assert(s.contains(s.last()));
        } else {
            lemma_filter_elem_in(s.drop_last(), pred, k);
            let w = choose|i: int| 0 <= i < s.drop_last().len() && s.drop_last()[i] == prev[k];
            assert(s[w] == prev[k]);
            assert(fl[k] == prev[k]);
        }
    }
}

/// The second-newest snapshot of a site names a row of that site.
proof fn lemma_prev_exists(s: Storage, host: Seq<char>, id: u64)
    requires
        storage_wf(s),
        snapshot_entries(s, host).len() >= 2,
        id == snapshot_entries(s, host)[1].0,
    ensures
        snapshot_of_site(s, host, id),
{
    let sid = site_id_of(s, host);
    let snaps = site_snapshots(s, sid);
    let k = snaps.len() - 2;
    s.snapshots@.lemma_filter_pred(crate::server::storage::site_pred(sid), k);
    lemma_filter_elem_in(s.snapshots@, crate::server::storage::site_pred(sid), k);
    let row = snaps[k];
    assert(s.snapshots@.contains(row));
    let w = choose|i: int| 0 <= i < s.snapshots@.len() && s.snapshots@[i] == row;
    assert(s.snapshots@[w].id == id && s.snapshots@[w].site_id == sid);
}

/// What the session answers to one frame, and whether the connection is
/// to be closed afterwards.
pub enum FrameResult {
    Reply { msg: ServerMessage, close: bool },
    Silent { close: bool },
}

} // verus!
