//! The chunk and snapshot store: chunks sharded over 256 buckets by the
//! first digest byte, and an index of sites, snapshots and tokens.
//!
//! Per site at most one snapshot is current; `has_chunks` answers in input
//! order; storing a chunk twice changes nothing.

use vstd::prelude::*;

use crate::chunker::Chunk;
use crate::hashing::{clone_bytes, hex_encode, hex_of, random_bytes, Digest};
use crate::merkle::{clone_node, Node};

verus! {

/// A registered site: a hostname under which snapshots accumulate.
pub struct Site {
    pub id: u64,
    pub hostname: String,
}

/// One snapshot row: an immutable version of a site's tree.
pub struct Snapshot {
    pub id: u64,
    pub site_id: u64,
    pub tree: Node,
    pub created_at: String,
    pub is_current: bool,
}

/// The store: 256 chunk shards keyed by the first digest byte, and the
/// index of sites, snapshots and tokens.
pub struct Storage {
    pub shards: Vec<Vec<Chunk>>,
    pub sites: Vec<Site>,
    pub snapshots: Vec<Snapshot>,
    pub tokens: Vec<String>,
    pub next_site_id: u64,
    pub next_snapshot_id: u64,
}

/// Whether a shard holds a chunk with the given digest.
pub open spec fn shard_has(sh: Seq<Chunk>, h: Seq<u8>) -> bool {
    exists|j: int| 0 <= j < sh.len() && (#[trigger] sh[j]).hash@ == h
}

/// The bytes a shard holds under the given digest.
pub open spec fn shard_get(sh: Seq<Chunk>, h: Seq<u8>) -> Seq<u8> {
    let j = choose|j: int| 0 <= j < sh.len() && (#[trigger] sh[j]).hash@ == h;
    sh[j].data@
}

/// Whether the store holds a chunk with the given digest.
pub open spec fn storage_has_chunk(s: Storage, h: Seq<u8>) -> bool {
    &&& h.len() == 32
    &&& 0 <= h[0] < s.shards@.len()
    &&& shard_has(s.shards@[h[0] as int]@, h)
}

/// The bytes the store holds under the given digest.
pub open spec fn storage_chunk(s: Storage, h: Seq<u8>) -> Seq<u8> {
    shard_get(s.shards@[h[0] as int]@, h)
}

/// Everything the store holds, as a map from digest bytes to chunk bytes.
pub open spec fn chunks_view(s: Storage) -> Map<Seq<u8>, Seq<u8>> {
    Map::new(|h: Seq<u8>| storage_has_chunk(s, h), |h: Seq<u8>| storage_chunk(s, h))
}

/// The store's shape: 256 shards, each chunk in the shard its first digest
/// byte names, digests unique per shard; hostnames and ids unique;
/// snapshot ids strictly ascending; and per site at most one current
/// snapshot.
pub open spec fn storage_wf(s: Storage) -> bool {
    &&& s.shards@.len() == 256
    &&& forall|p: int, j: int|
        0 <= p < 256 && 0 <= j < s.shards@[p]@.len() ==> (#[trigger] s.shards@[p]@[j]).hash@.len()
            == 32 && s.shards@[p]@[j].hash@[0] == p
    &&& forall|p: int, j: int, k: int|
        0 <= p < 256 && 0 <= j < k < s.shards@[p]@.len() ==> (#[trigger] s.shards@[p]@[j]).hash@
            != (#[trigger] s.shards@[p]@[k]).hash@
    &&& forall|i: int, j: int|
        0 <= i < j < s.sites@.len() ==> (#[trigger] s.sites@[i]).hostname@ != (
        #[trigger] s.sites@[j]).hostname@
    &&& forall|i: int, j: int|
        0 <= i < j < s.sites@.len() ==> (#[trigger] s.sites@[i]).id != (#[trigger] s.sites@[j]).id
    &&& forall|i: int| 0 <= i < s.sites@.len() ==> (#[trigger] s.sites@[i]).id < s.next_site_id
    &&& forall|i: int, j: int|
        0 <= i < j < s.snapshots@.len() ==> (#[trigger] s.snapshots@[i]).id < (
        #[trigger] s.snapshots@[j]).id
    &&& forall|i: int|
        0 <= i < s.snapshots@.len() ==> (#[trigger] s.snapshots@[i]).id < s.next_snapshot_id
    &&& forall|i: int, j: int|
        0 <= i < j < s.snapshots@.len() && (#[trigger] s.snapshots@[i]).site_id == (
        #[trigger] s.snapshots@[j]).site_id ==> !(s.snapshots@[i].is_current
            && s.snapshots@[j].is_current)
    &&& (forall|i: int, j: int|
        0 <= i < j < s.tokens@.len() ==> (#[trigger] s.tokens@[i])@ != (#[trigger] s.tokens@[j])@)
    &&& 1 <= s.next_site_id
    &&& 1 <= s.next_snapshot_id
}

/// Storing a chunk is idempotent: a second `store_chunk` with the same
/// digest and bytes leaves the store's chunk map — all that `get_chunk`
/// reads — exactly as the first left it.
pub proof fn lemma_store_chunk_idempotent(m: Map<Seq<u8>, Seq<u8>>, h: Seq<u8>, d: Seq<u8>)
    ensures
        m.insert(h, d).insert(h, d) == m.insert(h, d),
{
    assert(m.insert(h, d).insert(h, d) =~= m.insert(h, d));
}

/// Per site, at most one snapshot is current: any two current rows of one
/// site are the same row.
pub proof fn lemma_at_most_one_current(s: Storage, i: int, j: int)
    requires
        storage_wf(s),
        0 <= i < s.snapshots@.len(),
        0 <= j < s.snapshots@.len(),
        s.snapshots@[i].site_id == s.snapshots@[j].site_id,
        s.snapshots@[i].is_current,
        s.snapshots@[j].is_current,
    ensures
        i == j,
{
}

/// Whether the store knows the hostname.
pub open spec fn has_site(s: Storage, host: Seq<char>) -> bool {
    exists|i: int| 0 <= i < s.sites@.len() && (#[trigger] s.sites@[i]).hostname@ == host
}

/// The site id registered for the hostname.
pub open spec fn site_id_of(s: Storage, host: Seq<char>) -> u64 {
    let i = choose|i: int| 0 <= i < s.sites@.len() && (#[trigger] s.sites@[i]).hostname@ == host;
    s.sites@[i].id
}

/// Whether some snapshot of the given site is current.
pub open spec fn has_current(s: Storage, sid: u64) -> bool {
    exists|i: int|
        0 <= i < s.snapshots@.len() && (#[trigger] s.snapshots@[i]).site_id == sid
            && s.snapshots@[i].is_current
}

/// The current snapshot row of the given site.
pub open spec fn current_row(s: Storage, sid: u64) -> Snapshot {
    let i = choose|i: int|
        0 <= i < s.snapshots@.len() && (#[trigger] s.snapshots@[i]).site_id == sid
            && s.snapshots@[i].is_current;
    s.snapshots@[i]
}

/// Membership of a snapshot row in one site.
pub open spec fn site_pred(sid: u64) -> spec_fn(Snapshot) -> bool {
    |r: Snapshot| r.site_id == sid
}

/// The snapshot rows of one site, in stored (ascending id) order.
pub open spec fn site_snapshots(s: Storage, sid: u64) -> Seq<Snapshot> {
    s.snapshots@.filter(site_pred(sid))
}

/// A row with `is_current` cleared, all else equal.
pub open spec fn cleared(r: Snapshot) -> Snapshot {
    Snapshot { id: r.id, site_id: r.site_id, tree: r.tree, created_at: r.created_at, is_current: false }
}

/// A row with `is_current` set, all else equal.
pub open spec fn made_current(r: Snapshot) -> Snapshot {
    Snapshot { id: r.id, site_id: r.site_id, tree: r.tree, created_at: r.created_at, is_current: true }
}

/// Whether a token string is registered.
pub open spec fn has_token(s: Storage, t: Seq<char>) -> bool {
    exists|i: int| 0 <= i < s.tokens@.len() && (#[trigger] s.tokens@[i])@ == t
}

impl Storage {
    /// An empty store: 256 empty shards, no sites, snapshots or tokens.
    pub fn new() -> (s: Storage)
        ensures
            storage_wf(s),
            chunks_view(s) == Map::<Seq<u8>, Seq<u8>>::empty(),
            s.sites@.len() == 0,
            s.snapshots@.len() == 0,
            s.tokens@.len() == 0,
            s.next_site_id == 1,
            s.next_snapshot_id == 1,
    {
        let mut shards: Vec<Vec<Chunk>> = Vec::new();
        let mut i: usize = 0;
        while i < 256
            invariant
                0 <= i <= 256,
                shards@.len() == i,
                forall|p: int| 0 <= p < i ==> (#[trigger] shards@[p])@.len() == 0,
            decreases 256 - i,
        {
            shards.push(Vec::new());
            i += 1;
        }
        let s = Storage {
            shards,
            sites: Vec::new(),
            snapshots: Vec::new(),
            tokens: Vec::new(),
            next_site_id: 1,
            next_snapshot_id: 1,
        };
        proof {
            assert(chunks_view(s) =~= Map::<Seq<u8>, Seq<u8>>::empty());
        }
        s
    }

    /// Store a chunk on the shard its first digest byte names. Idempotent:
    /// the store afterwards maps the digest to the bytes, and a repeat of
    /// an earlier call changes nothing.
    pub fn store_chunk(&mut self, hash: &Digest, data: &[u8])
        requires
            storage_wf(*old(self)),
        ensures
            storage_wf(*final(self)),
            chunks_view(*final(self)) == chunks_view(*old(self)).insert(hash@, data@),
            final(self).sites == old(self).sites,
            final(self).snapshots == old(self).snapshots,
            final(self).tokens == old(self).tokens,
            final(self).next_site_id == old(self).next_site_id,
            final(self).next_snapshot_id == old(self).next_snapshot_id,
    {
        let p = hash[0] as usize;
        let ghost pre = *self;
        let found = find_in_shard(&self.shards[p], hash);
        match found {
            Some(j) => {
                let shard = &mut self.shards[p];
                let entry = &mut shard[j];
                *entry = Chunk { hash: *hash, data: vstd::slice::slice_to_vec(data) };
                proof {
                    lemma_store_chunk_view(pre, *self, hash@, data@, p as int, j as int, true);
                }
            },
            None => {
                let shard = &mut self.shards[p];
                let ghost j = shard@.len();
                shard.push(Chunk { hash: *hash, data: vstd::slice::slice_to_vec(data) });
                proof {
                    lemma_store_chunk_view(pre, *self, hash@, data@, p as int, j as int, false);
                }
            },
        }
    }

    /// Look a chunk up by digest: the bytes the store maps the digest to,
    /// or nothing exactly when the store does not hold it.
    pub fn get_chunk(&self, hash: &Digest) -> (r: Option<Vec<u8>>)
        requires
            storage_wf(*self),
        ensures
            r is Some <==> storage_has_chunk(*self, hash@),
            r matches Some(d) ==> d@ == chunks_view(*self)[hash@],
    {
        let p = hash[0] as usize;
        let found = find_in_shard(&self.shards[p], hash);
        match found {
            Some(j) => {
                let shard = &self.shards[p];
                let d = clone_bytes(&shard[j].data);
                proof {
                    lemma_shard_unique_get(self.shards@[p as int]@, hash@, j as int);
                }
                Some(d)
            },
            None => None,
        }
    }

    /// The subset of the given digests the store holds, in input order.
    pub fn has_chunks(&self, hashes: &[Digest]) -> (r: Vec<Digest>)
        requires
            storage_wf(*self),
        ensures
            r@ == hashes@.filter(|h: Digest| storage_has_chunk(*self, h@)),
    {
        let n = hashes.len();
        let mut out: Vec<Digest> = Vec::new();
        let mut i: usize = 0;
        proof {
            reveal(Seq::filter);
            assert(hashes@.take(0) =~= Seq::<Digest>::empty());
        }
        while i < n
            invariant
                storage_wf(*self),
                n == hashes@.len(),
                0 <= i <= n,
                out@ == hashes@.take(i as int).filter(|h: Digest| storage_has_chunk(*self, h@)),
            decreases n - i,
        {
            let h: Digest = *vstd::slice::slice_index_get(hashes, i);
            let present = self.get_chunk(&h).is_some();
            if present {
                out.push(h);
            }
            proof {
                reveal(Seq::filter);
                assert(hashes@.take(i + 1).drop_last() =~= hashes@.take(i as int));
                assert(hashes@.take(i + 1).last() == h);
            }
            i += 1;
        }
        proof {
            assert(hashes@.take(n as int) =~= hashes@);
        }
        out
    }

    /// Mint a fresh token: the hex form of 32 random bytes, recorded in
    /// the token table — which keeps one row per token — and returned.
    pub fn add_token(&mut self) -> (r: String)
        requires
            storage_wf(*old(self)),
        ensures
            storage_wf(*final(self)),
            r@.len() == 64,
            exists|b: Seq<u8>| b.len() == 32 && r@ == hex_of(b),
            has_token(*final(self), r@),
            !has_token(*old(self), r@) ==> final(self).tokens@.len() == old(self).tokens@.len()
                + 1 && final(self).tokens@.last()@ == r@ && (forall|i: int|
                0 <= i < old(self).tokens@.len() ==> final(self).tokens@[i] == old(
                    self,
                ).tokens@[i]),
            has_token(*old(self), r@) ==> final(self).tokens == old(self).tokens,
            final(self).shards == old(self).shards,
            final(self).sites == old(self).sites,
            final(self).snapshots == old(self).snapshots,
            final(self).next_site_id == old(self).next_site_id,
            final(self).next_snapshot_id == old(self).next_snapshot_id,
    {
        let bytes = random_bytes();
        let token = hex_encode(bytes.as_slice());
        proof {
            assert(hex_of(bytes@).len() == 64);
            assert(bytes@.len() == 32 && token@ == hex_of(bytes@));
        }
        if self.verify_token(token.as_str()) {
            return token;
        }
        let copy = clone_string(&token);
        self.tokens.push(copy);
        proof {
            assert(self.tokens@.last()@ == token@);
            assert forall|i: int, j: int|
                0 <= i < j < self.tokens@.len() implies (#[trigger] self.tokens@[i])@ != (
            #[trigger] self.tokens@[j])@ by {
                if j == self.tokens@.len() - 1 {
                    assert(self.tokens@[i] == old(self).tokens@[i]);
                    assert(!has_token(*old(self), token@));
                }
            }
        }
        token
    }

    /// Register a token the operator supplies; one row per token.
    pub fn insert_token(&mut self, token: &str)
        requires
            storage_wf(*old(self)),
        ensures
            storage_wf(*final(self)),
            has_token(*final(self), token@),
            !has_token(*old(self), token@) ==> final(self).tokens@.len() == old(
                self,
            ).tokens@.len() + 1 && final(self).tokens@.last()@ == token@ && (forall|i: int|
                0 <= i < old(self).tokens@.len() ==> final(self).tokens@[i] == old(
                    self,
                ).tokens@[i]),
            has_token(*old(self), token@) ==> final(self).tokens == old(self).tokens,
            final(self).shards == old(self).shards,
            final(self).sites == old(self).sites,
            final(self).snapshots == old(self).snapshots,
            final(self).next_site_id == old(self).next_site_id,
            final(self).next_snapshot_id == old(self).next_snapshot_id,
    {
        if self.verify_token(token) {
            return ;
        }
        self.tokens.push(String::from_str(token));
        proof {
            assert(self.tokens@.last()@ == token@);
            assert forall|i: int, j: int|
                0 <= i < j < self.tokens@.len() implies (#[trigger] self.tokens@[i])@ != (
            #[trigger] self.tokens@[j])@ by {
                if j == self.tokens@.len() - 1 {
                    assert(self.tokens@[i] == old(self).tokens@[i]);
                    assert(!has_token(*old(self), token@));
                }
            }
        }
    }

    /// Whether the token is registered.
    pub fn verify_token(&self, token: &str) -> (r: bool)
        ensures
            r == has_token(*self, token@),
    {
        let n = self.tokens.len();
        let mut i: usize = 0;
        while i < n
            invariant
                n == self.tokens@.len(),
                0 <= i <= n,
                forall|k: int| 0 <= k < i ==> (#[trigger] self.tokens@[k])@ != token@,
            decreases n - i,
        {
            if str_eq(self.tokens[i].as_str(), token) {
                return true;
            }
            i += 1;
        }
        false
    }

    /// Drop the token; later `verify_token` calls for it answer no.
    pub fn revoke_token(&mut self, token: &str)
        requires
            storage_wf(*old(self)),
        ensures
            storage_wf(*final(self)),
            final(self).tokens@ == old(self).tokens@.filter(|t: String| t@ != token@),
            !has_token(*final(self), token@),
            final(self).shards == old(self).shards,
            final(self).sites == old(self).sites,
            final(self).snapshots == old(self).snapshots,
            final(self).next_site_id == old(self).next_site_id,
            final(self).next_snapshot_id == old(self).next_snapshot_id,
    {
        let ghost t0 = self.tokens@;
        let total = self.tokens.len();
        let mut kept: Vec<String> = Vec::new();
        let mut i: usize = 0;
        proof {
            reveal(Seq::filter);
            assert(t0.take(0) =~= Seq::<String>::empty());
        }
        while self.tokens.len() > 0
            invariant
                total == t0.len(),
                0 <= i <= t0.len(),
                i + self.tokens@.len() == t0.len(),
                self.tokens@ =~= t0.skip(i as int),
                kept@ == t0.take(i as int).filter(|t: String| t@ != token@),
                self.shards == old(self).shards,
                self.sites == old(self).sites,
                self.snapshots == old(self).snapshots,
                self.next_site_id == old(self).next_site_id,
                self.next_snapshot_id == old(self).next_snapshot_id,
            decreases self.tokens@.len(),
        {
            let t = self.tokens.remove(0);
            proof {
                assert(t == t0[i as int]);
            }
            let keep = !str_eq(t.as_str(), token);
            if keep {
                kept.push(t);
            }
            proof {
                reveal(Seq::filter);
                assert(t0.take(i + 1).drop_last() =~= t0.take(i as int));
                assert(t0.take(i + 1).last() == t0[i as int]);
            }
            i += 1;
        }
        proof {
            assert(t0.take(i as int) =~= t0);
        }
        self.tokens = kept;
        proof {
            assert forall|i2: int|
                0 <= i2 < self.tokens@.len() implies (#[trigger] self.tokens@[i2])@ != token@ by {
                t0.lemma_filter_pred(|t: String| t@ != token@, i2);
            }
            lemma_filter_keeps_distinct(t0, |t: String| t@ != token@);
        }
    }

    /// Every registered token.
    pub fn list_tokens(&self) -> (r: Vec<String>)
        ensures
            r@.len() == self.tokens@.len(),
            forall|i: int| 0 <= i < r@.len() ==> (#[trigger] r@[i])@ == self.tokens@[i]@,
    {
        let n = self.tokens.len();
        let mut out: Vec<String> = Vec::new();
        let mut i: usize = 0;
        while i < n
            invariant
                n == self.tokens@.len(),
                0 <= i <= n,
                out@.len() == i,
                forall|k: int| 0 <= k < i ==> (#[trigger] out@[k])@ == self.tokens@[k]@,
            decreases n - i,
        {
            out.push(clone_string(&self.tokens[i]));
            i += 1;
        }
        out
    }

    /// The index of the site registered for the hostname, if any.
    fn find_site(&self, hostname: &str) -> (r: Option<usize>)
        ensures
            r matches Some(i) ==> 0 <= i < self.sites@.len() && self.sites@[i as int].hostname@
                == hostname@,
            r is None ==> !has_site(*self, hostname@),
    {
        let n = self.sites.len();
        let mut i: usize = 0;
        while i < n
            invariant
                n == self.sites@.len(),
                0 <= i <= n,
                forall|k: int| 0 <= k < i ==> (#[trigger] self.sites@[k]).hostname@ != hostname@,
            decreases n - i,
        {
            if str_eq(self.sites[i].hostname.as_str(), hostname) {
                return Some(i);
            }
            i += 1;
        }
        None
    }

    /// The site id for the hostname, registering the site on first use.
    fn get_or_create_site(&mut self, hostname: &str) -> (sid: u64)
        requires
            storage_wf(*old(self)),
            old(self).next_site_id < u64::MAX,
        ensures
            storage_wf(*final(self)),
            has_site(*final(self), hostname@),
            sid == site_id_of(*final(self), hostname@),
            final(self).shards == old(self).shards,
            final(self).snapshots == old(self).snapshots,
            final(self).tokens == old(self).tokens,
            final(self).next_snapshot_id == old(self).next_snapshot_id,
            has_site(*old(self), hostname@) ==> *final(self) == *old(self) && sid == site_id_of(
                *old(self),
                hostname@,
            ),
            !has_site(*old(self), hostname@) ==> {
                &&& final(self).sites@.len() == old(self).sites@.len() + 1
                &&& (forall|i: int|
                    0 <= i < old(self).sites@.len() ==> final(self).sites@[i] == old(self).sites@[i])
                &&& final(self).sites@.last().id == old(self).next_site_id
                &&& final(self).sites@.last().hostname@ == hostname@
                &&& final(self).next_site_id == old(self).next_site_id + 1
                &&& sid == old(self).next_site_id
            },
    {
        let found = self.find_site(hostname);
        match found {
            Some(i) => {
                let sid = self.sites[i].id;
                proof {
                    lemma_site_unique(*self, i as int);
                }
                sid
            },
            None => {
                let sid = self.next_site_id;
                self.sites.push(Site { id: sid, hostname: String::from_str(hostname) });
                self.next_site_id = sid + 1;
                proof {
                    let n = self.sites@.len() - 1;
                    assert(self.sites@[n].hostname@ == hostname@);
                    assert forall|i: int, j: int|
                        0 <= i < j < self.sites@.len() implies (#[trigger] self.sites@[i]).hostname@
                        != (#[trigger] self.sites@[j]).hostname@ by {
                        if j == n {
                            assert(self.sites@[i] == old(self).sites@[i]);
                            assert(!has_site(*old(self), hostname@));
                            assert(old(self).sites@[i].hostname@ != hostname@);
                        }
                    }
                    lemma_site_unique(*self, n);
                }
                sid
            },
        }
    }

    /// Record a new snapshot of the site's tree: every earlier snapshot of
    /// the site stops being current, the new row is current, and its id is
    /// the next unused one. Registers the site on first use.
    pub fn create_snapshot(&mut self, hostname: &str, tree: &Node, created_at: &str) -> (r: u64)
        requires
            storage_wf(*old(self)),
            old(self).next_site_id < u64::MAX,
            old(self).next_snapshot_id < u64::MAX,
        ensures
            storage_wf(*final(self)),
            r == old(self).next_snapshot_id,
            final(self).next_snapshot_id == r + 1,
            has_site(*final(self), hostname@),
            final(self).snapshots@.len() == old(self).snapshots@.len() + 1,
            final(self).snapshots@.last().id == r,
            final(self).snapshots@.last().site_id == site_id_of(*final(self), hostname@),
            final(self).snapshots@.last().tree@ == tree@,
            final(self).snapshots@.last().created_at@ == created_at@,
            final(self).snapshots@.last().is_current,
            forall|i: int|
                0 <= i < old(self).snapshots@.len() ==> final(self).snapshots@[i] == (
                if old(self).snapshots@[i].site_id == site_id_of(*final(self), hostname@) {
                    cleared(#[trigger] old(self).snapshots@[i])
                } else {
                    old(self).snapshots@[i]
                }),
            has_current(*final(self), site_id_of(*final(self), hostname@)),
            current_row(*final(self), site_id_of(*final(self), hostname@)) == final(self).snapshots@.last(),
            final(self).shards == old(self).shards,
            final(self).tokens == old(self).tokens,
            has_site(*old(self), hostname@) ==> final(self).sites == old(self).sites && site_id_of(
                *final(self),
                hostname@,
            ) == site_id_of(*old(self), hostname@),
    {
        let sid = self.get_or_create_site(hostname);
        let ghost mid = *self;
        let n = self.snapshots.len();
        let mut i: usize = 0;
        while i < n
            invariant
                storage_wf(mid),
                n == mid.snapshots@.len(),
                0 <= i <= n,
                self.snapshots@.len() == n,
                forall|k: int|
                    0 <= k < i ==> self.snapshots@[k] == (
                    if mid.snapshots@[k].site_id == sid {
                        cleared(#[trigger] mid.snapshots@[k])
                    } else {
                        mid.snapshots@[k]
                    }),
                forall|k: int| i <= k < n ==> self.snapshots@[k] == mid.snapshots@[k],
                self.shards == mid.shards,
                self.sites == mid.sites,
                self.tokens == mid.tokens,
                self.next_site_id == mid.next_site_id,
                self.next_snapshot_id == mid.next_snapshot_id,
            decreases n - i,
        {
            if self.snapshots[i].site_id == sid {
                let row = &mut self.snapshots[i];
                row.is_current = false;
            }
            i += 1;
        }
        let id = self.next_snapshot_id;
        self.snapshots.push(
            Snapshot {
                id,
                site_id: sid,
                tree: clone_node(tree),
                created_at: String::from_str(created_at),
                is_current: true,
            },
        );
        self.next_snapshot_id = id + 1;
        proof {
            let last = self.snapshots@.len() - 1;
            assert(self.snapshots@[last].site_id == sid);
            assert(self.snapshots@[last].is_current);
            assert forall|a: int, b: int|
                0 <= a < b < self.snapshots@.len() && (#[trigger] self.snapshots@[a]).site_id == (
                #[trigger] self.snapshots@[b]).site_id implies !(self.snapshots@[a].is_current
                && self.snapshots@[b].is_current) by {
                if b == last {
                    if mid.snapshots@[a].site_id == sid {
                        assert(self.snapshots@[a] == cleared(mid.snapshots@[a]));
                    } else {
                        assert(self.snapshots@[a] == mid.snapshots@[a]);
                    }
                } else {
                    if mid.snapshots@[a].site_id == sid {
                        assert(self.snapshots@[a] == cleared(mid.snapshots@[a]));
                    } else if mid.snapshots@[b].site_id == sid {
                        assert(self.snapshots@[b] == cleared(mid.snapshots@[b]));
                    } else {
                        assert(self.snapshots@[a] == mid.snapshots@[a]);
                        assert(self.snapshots@[b] == mid.snapshots@[b]);
                    }
                }
            }
            assert forall|a: int, b: int|
                0 <= a < b < self.snapshots@.len() implies (#[trigger] self.snapshots@[a]).id < (
                #[trigger] self.snapshots@[b]).id by {
                if a < last {
                    if mid.snapshots@[a].site_id == sid {
                        assert(self.snapshots@[a] == cleared(mid.snapshots@[a]));
                    } else {
                        assert(self.snapshots@[a] == mid.snapshots@[a]);
                    }
                }
                if b < last {
                    if mid.snapshots@[b].site_id == sid {
                        assert(self.snapshots@[b] == cleared(mid.snapshots@[b]));
                    } else {
                        assert(self.snapshots@[b] == mid.snapshots@[b]);
                    }
                }
            }
            assert(storage_wf(*self));
            lemma_current_unique(*self, sid, last);
        }
        id
    }

    /// The id and tree of the site's current snapshot, if the site exists
    /// and one of its snapshots is current.
    pub fn get_current_snapshot(&self, hostname: &str) -> (r: Option<(u64, Node)>)
        requires
            storage_wf(*self),
        ensures
            r is Some <==> has_site(*self, hostname@) && has_current(
                *self,
                site_id_of(*self, hostname@),
            ),
            r matches Some((id, tree)) ==> {
                &&& id == current_row(*self, site_id_of(*self, hostname@)).id
                &&& tree@ == current_row(*self, site_id_of(*self, hostname@)).tree@
            },
    {
        let found = self.find_site(hostname);
        match found {
            Some(si) => {
                proof {
                    lemma_site_unique(*self, si as int);
                }
                let sid = self.sites[si].id;
                let n = self.snapshots.len();
                let mut i: usize = 0;
                while i < n
                    invariant
                        storage_wf(*self),
                        has_site(*self, hostname@),
                        sid == site_id_of(*self, hostname@),
                        n == self.snapshots@.len(),
                        0 <= i <= n,
                        forall|k: int|
                            0 <= k < i ==> !((#[trigger] self.snapshots@[k]).site_id == sid
                                && self.snapshots@[k].is_current),
                    decreases n - i,
                {
                    if self.snapshots[i].site_id == sid && self.snapshots[i].is_current {
                        let id = self.snapshots[i].id;
                        let tree = clone_node(&self.snapshots[i].tree);
                        proof {
                            lemma_current_unique(*self, sid, i as int);
                        }
                        return Some((id, tree));
                    }
                    i += 1;
                }
                None
            },
            None => None,
        }
    }

    /// The site's snapshots as (id, is_current, created_at), newest id
    /// first; empty when the site is unknown.
    pub fn list_snapshots(&self, hostname: &str) -> (r: Vec<(u64, bool, String)>)
        requires
            storage_wf(*self),
        ensures
            !has_site(*self, hostname@) ==> r@.len() == 0,
            has_site(*self, hostname@) ==> {
                let snaps = site_snapshots(*self, site_id_of(*self, hostname@));
                &&& r@.len() == snaps.len()
                &&& (forall|i: int|
                    0 <= i < r@.len() ==> {
                        let row = snaps[snaps.len() - 1 - i];
                        &&& (#[trigger] r@[i]).0 == row.id
                        &&& r@[i].1 == row.is_current
                        &&& r@[i].2@ == row.created_at@
                    })
            },
    {
        let found = self.find_site(hostname);
        let si = match found {
            Some(si) => si,
            None => {
                return Vec::new();
            },
        };
        proof {
            lemma_site_unique(*self, si as int);
        }
        let sid = self.sites[si].id;
        let ghost pred = site_pred(sid);
        let n = self.snapshots.len();
        let mut asc: Vec<(u64, bool, String)> = Vec::new();
        let mut i: usize = 0;
        proof {
            reveal(Seq::filter);
            assert(self.snapshots@.take(0) =~= Seq::<Snapshot>::empty());
        }
        while i < n
            invariant
                storage_wf(*self),
                pred == (|row: Snapshot| row.site_id == sid),
                n == self.snapshots@.len(),
                0 <= i <= n,
                asc@.len() == self.snapshots@.take(i as int).filter(pred).len(),
                forall|k: int|
                    0 <= k < asc@.len() ==> {
                        let row = self.snapshots@.take(i as int).filter(pred)[k];
                        &&& (#[trigger] asc@[k]).0 == row.id
                        &&& asc@[k].1 == row.is_current
                        &&& asc@[k].2@ == row.created_at@
                    },
            decreases n - i,
        {
            let ghost taken = self.snapshots@.take(i as int).filter(pred);
            if self.snapshots[i].site_id == sid {
                let id = self.snapshots[i].id;
                let cur = self.snapshots[i].is_current;
                let at = clone_string(&self.snapshots[i].created_at);
                asc.push((id, cur, at));
            }
            proof {
                reveal(Seq::filter);
                assert(self.snapshots@.take(i + 1).drop_last() =~= self.snapshots@.take(i as int));
                assert(self.snapshots@.take(i + 1).last() == self.snapshots@[i as int]);
            }
            i += 1;
        }
        proof {
            assert(self.snapshots@.take(n as int) =~= self.snapshots@);
        }
        let m = asc.len();
        let ghost ascv = asc@;
        let mut out: Vec<(u64, bool, String)> = Vec::new();
        let mut j: usize = 0;
        while j < m
            invariant
                m == ascv.len(),
                asc@.len() == ascv.len() - j,
                forall|k: int| 0 <= k < asc@.len() ==> asc@[k] == ascv[k],
                0 <= j <= m,
                out@.len() == j,
                forall|k: int| 0 <= k < j ==> (#[trigger] out@[k]) == ascv[ascv.len() - 1 - k],
            decreases m - j,
        {
            let t = asc.pop().unwrap();
            out.push(t);
            j += 1;
        }
        out
    }

    /// Make the given snapshot the site's current one: answers whether the
    /// site exists and the snapshot belongs to it; when it does, exactly
    /// that row is current for the site afterwards, and nothing else about
    /// the store changes.
    pub fn set_current_snapshot(&mut self, hostname: &str, snapshot_id: u64) -> (r: bool)
        requires
            storage_wf(*old(self)),
        ensures
            storage_wf(*final(self)),
            r == (has_site(*old(self), hostname@) && exists|i: int|
                0 <= i < old(self).snapshots@.len() && (#[trigger] old(self).snapshots@[i]).id
                    == snapshot_id && old(self).snapshots@[i].site_id == site_id_of(
                    *old(self),
                    hostname@,
                )),
            !r ==> *final(self) == *old(self),
            r ==> {
                let sid = site_id_of(*old(self), hostname@);
                &&& final(self).snapshots@.len() == old(self).snapshots@.len()
                &&& (forall|i: int|
                    0 <= i < old(self).snapshots@.len() ==> final(self).snapshots@[i] == (
                    if old(self).snapshots@[i].site_id == sid {
                        if old(self).snapshots@[i].id == snapshot_id {
                            made_current(#[trigger] old(self).snapshots@[i])
                        } else {
                            cleared(old(self).snapshots@[i])
                        }
                    } else {
                        old(self).snapshots@[i]
                    }))
                &&& has_current(*final(self), sid)
                &&& current_row(*final(self), sid).id == snapshot_id
                &&& final(self).shards == old(self).shards
                &&& final(self).sites == old(self).sites
                &&& final(self).tokens == old(self).tokens
                &&& final(self).next_site_id == old(self).next_site_id
                &&& final(self).next_snapshot_id == old(self).next_snapshot_id
            },
    {
        let found = self.find_site(hostname);
        let si = match found {
            Some(si) => si,
            None => {
                return false;
            },
        };
        proof {
            lemma_site_unique(*self, si as int);
        }
        let sid = self.sites[si].id;
        let n = self.snapshots.len();
        let mut target: Option<usize> = None;
        let mut i: usize = 0;
        while i < n
            invariant
                n == self.snapshots@.len(),
                0 <= i <= n,
                target matches Some(t) ==> 0 <= t < n && self.snapshots@[t as int].id
                    == snapshot_id && self.snapshots@[t as int].site_id == sid,
                target is None ==> forall|k: int|
                    0 <= k < i ==> !((#[trigger] self.snapshots@[k]).id == snapshot_id
                        && self.snapshots@[k].site_id == sid),
            decreases n - i,
        {
            if self.snapshots[i].id == snapshot_id && self.snapshots[i].site_id == sid {
                target = Some(i);
                proof {
                    assert(self.snapshots@[i as int].id == snapshot_id);
                }
            }
            i += 1;
        }
        let ti = match target {
            Some(t) => t,
            None => {
                return false;
            },
        };
        let ghost mid = *self;
        let mut k: usize = 0;
        while k < n
            invariant
                storage_wf(mid),
                n == mid.snapshots@.len(),
                0 <= k <= n,
                0 <= ti < n,
                mid.snapshots@[ti as int].id == snapshot_id,
                mid.snapshots@[ti as int].site_id == sid,
                self.snapshots@.len() == n,
                forall|q: int|
                    0 <= q < k ==> self.snapshots@[q] == (
                    if mid.snapshots@[q].site_id == sid {
                        if mid.snapshots@[q].id == snapshot_id {
                            made_current(#[trigger] mid.snapshots@[q])
                        } else {
                            cleared(mid.snapshots@[q])
                        }
                    } else {
                        mid.snapshots@[q]
                    }),
                forall|q: int| k <= q < n ==> self.snapshots@[q] == mid.snapshots@[q],
                self.shards == mid.shards,
                self.sites == mid.sites,
                self.tokens == mid.tokens,
                self.next_site_id == mid.next_site_id,
                self.next_snapshot_id == mid.next_snapshot_id,
            decreases n - k,
        {
            if self.snapshots[k].site_id == sid {
                let make = self.snapshots[k].id == snapshot_id;
                let row = &mut self.snapshots[k];
                row.is_current = make;
            }
            k += 1;
        }
        proof {
            assert forall|a: int, b: int|
                0 <= a < b < self.snapshots@.len() implies ((#[trigger] self.snapshots@[a]).id < (
                #[trigger] self.snapshots@[b]).id && self.snapshots@[a].site_id
                == mid.snapshots@[a].site_id && self.snapshots@[b].site_id
                == mid.snapshots@[b].site_id) by {
                lemma_row_shape(mid, *self, sid, snapshot_id, a);
                lemma_row_shape(mid, *self, sid, snapshot_id, b);
            }
            assert forall|a: int, b: int|
                0 <= a < b < self.snapshots@.len() && (#[trigger] self.snapshots@[a]).site_id == (
                #[trigger] self.snapshots@[b]).site_id implies !(self.snapshots@[a].is_current
                && self.snapshots@[b].is_current) by {
                lemma_row_shape(mid, *self, sid, snapshot_id, a);
                lemma_row_shape(mid, *self, sid, snapshot_id, b);
                if self.snapshots@[a].is_current && self.snapshots@[b].is_current {
                    if mid.snapshots@[a].site_id == sid {
                        assert(mid.snapshots@[a].id == snapshot_id);
                        assert(mid.snapshots@[b].id == snapshot_id);
                        assert(mid.snapshots@[a].id < mid.snapshots@[b].id);
                    } else {
                        assert(!mid.snapshots@[a].is_current || !mid.snapshots@[b].is_current);
                    }
                }
            }
            assert(storage_wf(*self));
            assert(self.snapshots@[ti as int].is_current);
            assert(self.snapshots@[ti as int].site_id == sid);
            lemma_current_unique(*self, sid, ti as int);
        }
        true
    }
}
/// One row after `set_current_snapshot`'s sweep: id and site kept, the
/// target row current, every other same-site row not.
proof fn lemma_row_shape(mid: Storage, post: Storage, sid: u64, snapshot_id: u64, q: int)
    requires
        0 <= q < mid.snapshots@.len(),
        post.snapshots@.len() == mid.snapshots@.len(),
        post.snapshots@[q] == (
        if mid.snapshots@[q].site_id == sid {
            if mid.snapshots@[q].id == snapshot_id {
                made_current(mid.snapshots@[q])
            } else {
                cleared(mid.snapshots@[q])
            }
        } else {
            mid.snapshots@[q]
        }),
    ensures
        post.snapshots@[q].id == mid.snapshots@[q].id,
        post.snapshots@[q].site_id == mid.snapshots@[q].site_id,
        mid.snapshots@[q].site_id == sid && mid.snapshots@[q].id == snapshot_id
            ==> post.snapshots@[q].is_current,
        mid.snapshots@[q].site_id == sid && mid.snapshots@[q].id != snapshot_id
            ==> !post.snapshots@[q].is_current,
        mid.snapshots@[q].site_id != sid ==> post.snapshots@[q] == mid.snapshots@[q],
{
}

/// Unique hostnames pin the chosen site index: a site that carries the
/// hostname is the one `site_id_of` speaks of.
proof fn lemma_site_unique(s: Storage, i: int)
    requires
        storage_wf(s),
        0 <= i < s.sites@.len(),
    ensures
        has_site(s, s.sites@[i].hostname@),
        site_id_of(s, s.sites@[i].hostname@) == s.sites@[i].id,
{
    let host = s.sites@[i].hostname@;
    let w = choose|k: int| 0 <= k < s.sites@.len() && (#[trigger] s.sites@[k]).hostname@ == host;
    if w != i {
        if w < i {
            assert(s.sites@[w].hostname@ != s.sites@[i].hostname@);
        } else {
            assert(s.sites@[i].hostname@ != s.sites@[w].hostname@);
        }
    }
}

/// At most one current row per site pins the chosen row: a current row of
/// the site is the one `current_row` speaks of.
proof fn lemma_current_unique(s: Storage, sid: u64, i: int)
    requires
        storage_wf(s),
        0 <= i < s.snapshots@.len(),
        s.snapshots@[i].site_id == sid,
        s.snapshots@[i].is_current,
    ensures
        has_current(s, sid),
        current_row(s, sid) == s.snapshots@[i],
{
    let w = choose|k: int|
        0 <= k < s.snapshots@.len() && (#[trigger] s.snapshots@[k]).site_id == sid
            && s.snapshots@[k].is_current;
    lemma_at_most_one_current(s, w, i);
}

/// The per-shard digest uniqueness pins the chosen witness: any index that
/// matches the digest yields the same bytes.
proof fn lemma_shard_unique_get(sh: Seq<Chunk>, h: Seq<u8>, j: int)
    requires
        0 <= j < sh.len(),
        sh[j].hash@ == h,
        forall|a: int, b: int|
            0 <= a < b < sh.len() ==> (#[trigger] sh[a]).hash@ != (#[trigger] sh[b]).hash@,
    ensures
        shard_has(sh, h),
        shard_get(sh, h) == sh[j].data@,
{
    let w = choose|k: int| 0 <= k < sh.len() && (#[trigger] sh[k]).hash@ == h;
    if w != j {
        if w < j {
            assert(sh[w].hash@ != sh[j].hash@);
        } else {
            assert(sh[j].hash@ != sh[w].hash@);
        }
    }
}

/// The conditions a chunk write leaves its shard in: only entry `j`
/// changed or was added, and it carries the written digest and bytes.
spec fn chunk_written(pre: Storage, post: Storage, h: Seq<u8>, d: Seq<u8>, p: int, j: int, replaced: bool) -> bool {
    &&& post.shards@.len() == 256
    &&& (forall|q: int| 0 <= q < 256 && q != p ==> post.shards@[q] == pre.shards@[q])
    &&& (replaced ==> {
        &&& 0 <= j < pre.shards@[p]@.len()
        &&& pre.shards@[p]@[j].hash@ == h
        &&& post.shards@[p]@.len() == pre.shards@[p]@.len()
    })
    &&& (!replaced ==> {
        &&& j == pre.shards@[p]@.len()
        &&& (forall|k: int| 0 <= k < j ==> (#[trigger] pre.shards@[p]@[k]).hash@ != h)
        &&& post.shards@[p]@.len() == j + 1
    })
    &&& (forall|k: int|
        0 <= k < pre.shards@[p]@.len() && k != j ==> post.shards@[p]@[k] == pre.shards@[p]@[k])
    &&& post.shards@[p]@[j].hash@ == h
    &&& post.shards@[p]@[j].data@ == d
}

/// After a chunk is written into its shard, the store's map is the old map
/// with the digest bound to the bytes, and the shape is kept.
proof fn lemma_store_chunk_view(
    pre: Storage,
    post: Storage,
    h: Seq<u8>,
    d: Seq<u8>,
    p: int,
    j: int,
    replaced: bool,
)
    requires
        storage_wf(pre),
        h.len() == 32,
        p == h[0],
        0 <= p < 256,
        post.sites == pre.sites,
        post.snapshots == pre.snapshots,
        post.tokens == pre.tokens,
        post.next_site_id == pre.next_site_id,
        post.next_snapshot_id == pre.next_snapshot_id,
        chunk_written(pre, post, h, d, p, j, replaced),
    ensures
        storage_wf(post),
        chunks_view(post) == chunks_view(pre).insert(h, d),
{
    let shpre = pre.shards@[p]@;
    let shpost = post.shards@[p]@;
    assert forall|a: int, b: int|
        0 <= a < b < shpost.len() implies (#[trigger] shpost[a]).hash@ != (
    #[trigger] shpost[b]).hash@ by {
        if a != j && b != j {
            assert(shpost[a] == shpre[a]);
            assert(shpost[b] == shpre[b]);
        } else if a == j {
            assert(shpost[b] == shpre[b]);
            if replaced {
                assert(shpre[j].hash@ != shpre[b].hash@);
            }
        } else {
            assert(shpost[a] == shpre[a]);
            if replaced {
                assert(shpre[a].hash@ != shpre[j].hash@);
            }
        }
    }
    assert(storage_wf(post));
    assert forall|h2: Seq<u8>| #[trigger] chunks_view(post).dom().contains(h2)
        == chunks_view(pre).insert(h, d).dom().contains(h2) by {
        lemma_store_chunk_key(pre, post, h, d, p, j, replaced, h2);
    }
    assert forall|h2: Seq<u8>| chunks_view(post).dom().contains(h2)
        implies #[trigger] chunks_view(post)[h2] == chunks_view(pre).insert(h, d)[h2] by {
        lemma_store_chunk_key(pre, post, h, d, p, j, replaced, h2);
    }
    assert(chunks_view(post) =~= chunks_view(pre).insert(h, d));
}

/// One key of the store's map, after a chunk write: the written digest now
/// maps to the written bytes; every other digest stands as before.
proof fn lemma_store_chunk_key(
    pre: Storage,
    post: Storage,
    h: Seq<u8>,
    d: Seq<u8>,
    p: int,
    j: int,
    replaced: bool,
    h2: Seq<u8>,
)
    requires
        storage_wf(pre),
        storage_wf(post),
        h.len() == 32,
        p == h[0],
        0 <= p < 256,
        chunk_written(pre, post, h, d, p, j, replaced),
    ensures
        h2 == h ==> storage_has_chunk(post, h2) && storage_chunk(post, h2) == d,
        h2 != h ==> storage_has_chunk(post, h2) == storage_has_chunk(pre, h2),
        h2 != h && storage_has_chunk(pre, h2) ==> storage_chunk(post, h2) == storage_chunk(
            pre,
            h2,
        ),
{
    let shpre = pre.shards@[p]@;
    let shpost = post.shards@[p]@;
    if h2 == h {
        assert(shpost[j].hash@ == h);
        lemma_shard_unique_get(shpost, h, j);
    } else if h2.len() == 32 && 0 <= h2[0] < 256 {
        let q = h2[0] as int;
        if q != p {
            assert(post.shards@[q] == pre.shards@[q]);
            if storage_has_chunk(pre, h2) {
                let w = choose|k: int|
                    0 <= k < pre.shards@[q]@.len() && (#[trigger] pre.shards@[q]@[k]).hash@ == h2;
                lemma_shard_unique_get(pre.shards@[q]@, h2, w);
                lemma_shard_unique_get(post.shards@[q]@, h2, w);
            }
        } else {
            if storage_has_chunk(pre, h2) {
                let w = choose|k: int|
                    0 <= k < shpre.len() && (#[trigger] shpre[k]).hash@ == h2;
                assert(w != j || !replaced);
                if !replaced && w == j {
                    assert(false);
                }
                assert(shpost[w] == shpre[w]);
                lemma_shard_unique_get(shpre, h2, w);
                lemma_shard_unique_get(shpost, h2, w);
            }
            if storage_has_chunk(post, h2) {
                let w = choose|k: int|
                    0 <= k < shpost.len() && (#[trigger] shpost[k]).hash@ == h2;
                assert(w != j);
                assert(shpost[w] == shpre[w]);
                assert(storage_has_chunk(pre, h2));
            }
        }
    }
}

/// The index of the chunk with the given digest in a shard, if the shard
/// holds one.
fn find_in_shard(sh: &Vec<Chunk>, hash: &Digest) -> (r: Option<usize>)
    ensures
        r matches Some(j) ==> 0 <= j < sh@.len() && sh@[j as int].hash@ == hash@,
        r is None ==> forall|k: int| 0 <= k < sh@.len() ==> (#[trigger] sh@[k]).hash@ != hash@,
        r is None ==> !shard_has(sh@, hash@),
{
    let n = sh.len();
    let mut j: usize = 0;
    while j < n
        invariant
            n == sh@.len(),
            0 <= j <= n,
            forall|k: int| 0 <= k < j ==> (#[trigger] sh@[k]).hash@ != hash@,
        decreases n - j,
    {
        if crate::hashing::digest_eq(&sh[j].hash, hash) {
            return Some(j);
        }
        j += 1;
    }
    None
}

/// An element of a filtered token table is an element of the table.
proof fn lemma_token_filter_elem_in(s: Seq<String>, pred: spec_fn(String) -> bool, k: int)
    requires
        0 <= k < s.filter(pred).len(),
    ensures
        exists|i: int| 0 <= i < s.len() && #[trigger] s[i] == s.filter(pred)[k],
    decreases s.len(),
{
    reveal(Seq::filter);
    if s.len() > 0 {
        let fl = s.filter(pred);
        let prev = s.drop_last().filter(pred);
        if pred(s.last()) && k == fl.len() - 1 {
            assert(fl[k] == s.last());
            assert(s[s.len() - 1] == fl[k]);
        } else {
            lemma_token_filter_elem_in(s.drop_last(), pred, k);
            let w = choose|i: int| 0 <= i < s.drop_last().len() && #[trigger] s.drop_last()[i]
                == prev[k];
            assert(s[w] == fl[k]);
        }
    }
}

/// Filtering a token table with pairwise distinct views keeps them
/// pairwise distinct.
proof fn lemma_filter_keeps_distinct(s: Seq<String>, pred: spec_fn(String) -> bool)
    requires
        forall|i: int, j: int| 0 <= i < j < s.len() ==> (#[trigger] s[i])@ != (#[trigger] s[j])@,
    ensures
        forall|a: int, b: int|
            0 <= a < b < s.filter(pred).len() ==> (#[trigger] s.filter(pred)[a])@ != (
            #[trigger] s.filter(pred)[b])@,
    decreases s.len(),
{
    reveal(Seq::filter);
    if s.len() > 0 {
        assert(forall|i: int, j: int|
            0 <= i < j < s.drop_last().len() ==> (#[trigger] s.drop_last()[i])@ != (
            #[trigger] s.drop_last()[j])@);
        lemma_filter_keeps_distinct(s.drop_last(), pred);
        let fl = s.filter(pred);
        let prev = s.drop_last().filter(pred);
        if pred(s.last()) {
            assert(fl == prev.push(s.last()));
            assert forall|a: int, b: int|
                0 <= a < b < fl.len() implies (#[trigger] fl[a])@ != (#[trigger] fl[b])@ by {
                if b == fl.len() - 1 {
                    assert(fl[a] == prev[a]);
                    lemma_token_filter_elem_in(s.drop_last(), pred, a);
                    let w = choose|i: int|
                        0 <= i < s.drop_last().len() && #[trigger] s.drop_last()[i] == prev[a];
                    assert(s[w]@ == prev[a]@);
                    assert(s[w]@ != s.last()@);
                } else {
                    assert(fl[a] == prev[a]);
                    assert(fl[b] == prev[b]);
                }
            }
        }
    }
}

/// A copy of a string.
pub fn clone_string(s: &String) -> (r: String)
    ensures
        r@ == s@,
{
    s.clone()
}

/// Whether two strings hold the same characters.
pub fn str_eq(a: &str, b: &str) -> (r: bool)
    ensures
        r == (a@ == b@),
{
    let sa = String::from_str(a);
    let sb = String::from_str(b);
    sa.eq(&sb)
}

} // verus!
