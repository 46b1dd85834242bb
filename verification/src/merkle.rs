//! The Merkle tree over a scanned directory tree: every file is chunked,
//! every node carries a BLAKE3 digest that is a deterministic function of
//! the subtree's names, permissions and bytes, and nothing else.

use vstd::prelude::*;
use vstd::utf8::encode_utf8;
use vstd::string::StringSliceAdditionalSpecFns;

use crate::chunker::{chunk_data, chunk_records, chunk_records_of, Chunk};
use crate::hashing::{blake3_hash, blake3_of, Digest};
use crate::scanner::{EntryV, ScannedEntry};

verus! {

broadcast use vstd::prelude::Seq::lemma_flatten_push;

/// A node in the Merkle tree: a file or a directory.
#[derive(Debug, PartialEq, Eq)]
pub enum Node {
    File { name: String, permissions: u32, size: u64, chunks: Vec<Digest>, hash: Digest },
    Directory { name: String, permissions: u32, children: Vec<Node>, hash: Digest },
}

/// The mathematical shape of a node: names as character sequences, digests
/// as byte sequences.
#[verifier::ext_equal]
pub enum NodeV {
    File { name: Seq<char>, permissions: u32, size: u64, chunks: Seq<Seq<u8>>, hash: Seq<u8> },
    Directory { name: Seq<char>, permissions: u32, children: Seq<NodeV>, hash: Seq<u8> },
}

/// The views of a sequence of digests.
pub open spec fn digest_views(s: Seq<Digest>) -> Seq<Seq<u8>> {
    s.map_values(|d: Digest| d@)
}

pub open spec fn node_view(n: Node) -> NodeV
    decreases n,
{
    match n {
        Node::File { name, permissions, size, chunks, hash } => NodeV::File {
            name: name@,
            permissions,
            size,
            chunks: digest_views(chunks@),
            hash: hash@,
        },
        Node::Directory { name, permissions, children, hash } => NodeV::Directory {
            name: name@,
            permissions,
            children: node_views(children@),
            hash: hash@,
        },
    }
}

pub open spec fn node_views(s: Seq<Node>) -> Seq<NodeV>
    decreases s,
{
    if s.len() == 0 {
        Seq::empty()
    } else {
        node_views(s.drop_last()).push(node_view(s.last()))
    }
}

impl View for Node {
    type V = NodeV;

    open spec fn view(&self) -> NodeV {
        node_view(*self)
    }
}

/// The views of a sequence of nodes, element by element.
pub proof fn lemma_node_views(s: Seq<Node>)
    ensures
        node_views(s).len() == s.len(),
        forall|i: int| 0 <= i < s.len() ==> #[trigger] node_views(s)[i] == s[i]@,
    decreases s.len(),
{
    if s.len() > 0 {
        lemma_node_views(s.drop_last());
        assert(forall|i: int| 0 <= i < s.len() - 1 ==> s.drop_last()[i] == s[i]);
    }
}

/// The name of a node.
pub open spec fn node_name(n: NodeV) -> Seq<char> {
    match n {
        NodeV::File { name, .. } => name,
        NodeV::Directory { name, .. } => name,
    }
}

/// The digest of a node.
pub open spec fn node_hash(n: NodeV) -> Seq<u8> {
    match n {
        NodeV::File { hash, .. } => hash,
        NodeV::Directory { hash, .. } => hash,
    }
}

/// The permissions of a node.
pub open spec fn node_permissions(n: NodeV) -> u32 {
    match n {
        NodeV::File { permissions, .. } => permissions,
        NodeV::Directory { permissions, .. } => permissions,
    }
}

impl Node {
    /// The node's name.
    pub fn name(&self) -> (r: &str)
        ensures
            r@ == node_name(self@),
    {
        match self {
            Node::File { name, .. } => name.as_str(),
            Node::Directory { name, .. } => name.as_str(),
        }
    }

    /// The node's digest.
    pub fn hash(&self) -> (r: &Digest)
        ensures
            r@ == node_hash(self@),
    {
        match self {
            Node::File { hash, .. } => hash,
            Node::Directory { hash, .. } => hash,
        }
    }
}

/// A deep copy of a node.
pub fn clone_node(n: &Node) -> (r: Node)
    ensures
        r@ == n@,
    decreases *n,
{
    match n {
        Node::File { name, permissions, size, chunks, hash } => {
            let mut ds: Vec<Digest> = Vec::new();
            let mut i: usize = 0;
            while i < chunks.len()
                invariant
                    0 <= i <= chunks@.len(),
                    ds@ =~= chunks@.take(i as int),
                decreases chunks@.len() - i,
            {
                ds.push(chunks[i]);
                proof {
                    assert(ds@ =~= chunks@.take(i as int + 1));
                }
                i += 1;
            }
            proof {
                assert(ds@ =~= chunks@);
            }
            Node::File {
                name: name.clone(),
                permissions: *permissions,
                size: *size,
                chunks: ds,
                hash: *hash,
            }
        },
        Node::Directory { name, permissions, children, hash } => {
            let mut kids: Vec<Node> = Vec::new();
            let mut i: usize = 0;
            while i < children.len()
                invariant
                    *n is Directory,
                    (*n)->Directory_children == *children,
                    0 <= i <= children@.len(),
                    kids@.len() == i,
                    forall|j: int| 0 <= j < i ==> (#[trigger] kids@[j])@ == children@[j]@,
                decreases children@.len() - i,
            {
                proof {
                    assert(decreases_to!(*n => (*n)->Directory_children));
                    assert(decreases_to!((*n)->Directory_children => (*n)->Directory_children@));
                    assert(decreases_to!(
                        (*n)->Directory_children@ => (*n)->Directory_children@[i as int]
                    ));
                }
                kids.push(clone_node(&children[i]));
                i += 1;
            }
            let r = Node::Directory {
                name: name.clone(),
                permissions: *permissions,
                children: kids,
                hash: *hash,
            };
            proof {
                lemma_node_views(r->Directory_children@);
                lemma_node_views(children@);
                assert(node_views(r->Directory_children@) =~= node_views(children@));
                assert(r@ =~= n@);
            }
            r
        },
    }
}

/// The four bytes of a 32-bit value, least significant first.
pub open spec fn le32(p: u32) -> Seq<u8> {
    seq![
        (p & 0xff) as u8,
        ((p >> 8) & 0xff) as u8,
        ((p >> 16) & 0xff) as u8,
        ((p >> 24) & 0xff) as u8,
    ]
}

/// What a file's digest is taken over: its chunk digests, concatenated in
/// order.
pub open spec fn file_hash_input(chunks: Seq<Seq<u8>>) -> Seq<u8> {
    chunks.flatten()
}

/// A child's contribution to its directory's digest: raw name bytes, then
/// the permissions as four little-endian bytes, then the child's digest.
pub open spec fn dir_hash_entry(c: NodeV) -> Seq<u8> {
    encode_utf8(node_name(c)) + le32(node_permissions(c)) + node_hash(c)
}

/// What a directory's digest is taken over: each child's contribution, in
/// child order.
pub open spec fn dir_hash_input(children: Seq<NodeV>) -> Seq<u8> {
    children.map_values(|c: NodeV| dir_hash_entry(c)).flatten()
}

/// The chunk digests that chunking a byte sequence yields.
pub open spec fn spec_chunk_digests(data: Seq<u8>) -> Seq<Seq<u8>> {
    chunk_records_of(data).map_values(|r: (Seq<u8>, Seq<u8>)| r.0)
}

/// The node that building from a scanned entry yields: a deterministic
/// function of the entry's names, permissions and bytes alone.
pub open spec fn spec_build(e: EntryV) -> NodeV
    decreases e,
{
    match e {
        EntryV::File { name, permissions, size, data } => NodeV::File {
            name,
            permissions,
            size,
            chunks: spec_chunk_digests(data),
            hash: blake3_of(file_hash_input(spec_chunk_digests(data))),
        },
        EntryV::Directory { name, permissions, children } => {
            let child_nodes = spec_build_children(children);
            NodeV::Directory {
                name,
                permissions,
                children: child_nodes,
                hash: blake3_of(dir_hash_input(child_nodes)),
            }
        },
    }
}

pub open spec fn spec_build_children(s: Seq<EntryV>) -> Seq<NodeV>
    decreases s,
{
    if s.len() == 0 {
        Seq::empty()
    } else {
        spec_build_children(s.drop_last()).push(spec_build(s.last()))
    }
}

/// What chunking guarantees of every file under an entry: the chunk
/// bytes concatenate back to the file's bytes; a file has no chunks only
/// when empty and exactly one when at most the minimum chunk size; no
/// chunk passes the maximum size and only a file's last chunk may be
/// shorter than the minimum.
pub open spec fn entry_chunks_fit(e: EntryV) -> bool
    decreases e,
{
    match e {
        EntryV::File { data, .. } => {
            let recs = chunk_records_of(data);
            &&& recs.map_values(|r: (Seq<u8>, Seq<u8>)| r.1).flatten() == data
            &&& (recs.len() == 0 <==> data.len() == 0)
            &&& (1 <= data.len() <= crate::chunker::MIN_SIZE ==> recs.len() == 1 && recs[0].1
                == data)
            &&& (forall|i: int|
                0 <= i < recs.len() ==> (#[trigger] recs[i]).1.len() <= crate::chunker::MAX_SIZE)
            &&& (forall|i: int|
                0 <= i < recs.len() - 1 ==> (#[trigger] recs[i]).1.len()
                    >= crate::chunker::MIN_SIZE)
        },
        EntryV::Directory { children, .. } => forall|i: int|
            0 <= i < children.len() ==> entry_chunks_fit(#[trigger] children[i]),
    }
}

/// The (digest, bytes) records of the chunks that building from a scanned
/// entry emits: a depth-first traversal, files chunked in order.
pub open spec fn spec_build_chunks(e: EntryV) -> Seq<(Seq<u8>, Seq<u8>)>
    decreases e,
{
    match e {
        EntryV::File { data, .. } => chunk_records_of(data),
        EntryV::Directory { children, .. } => spec_build_chunks_children(children),
    }
}

pub open spec fn spec_build_chunks_children(s: Seq<EntryV>) -> Seq<(Seq<u8>, Seq<u8>)>
    decreases s,
{
    if s.len() == 0 {
        Seq::empty()
    } else {
        spec_build_chunks_children(s.drop_last()) + spec_build_chunks(s.last())
    }
}

/// The element-wise shape of `spec_build_children`.
pub proof fn lemma_spec_build_children(s: Seq<EntryV>)
    ensures
        spec_build_children(s).len() == s.len(),
        forall|i: int|
            0 <= i < s.len() ==> #[trigger] spec_build_children(s)[i] == spec_build(s[i]),
    decreases s.len(),
{
    if s.len() > 0 {
        lemma_spec_build_children(s.drop_last());
        assert(forall|i: int| 0 <= i < s.len() - 1 ==> s.drop_last()[i] == s[i]);
    }
}

/// Append a digest's 32 bytes to a byte vector.
pub(crate) fn push_digest_bytes(out: &mut Vec<u8>, d: &Digest)
    ensures
        final(out)@ == old(out)@ + d@,
{
    let ghost base = out@;
    let mut j: usize = 0;
    while j < 32
        invariant
            0 <= j <= 32,
            out@ =~= base + d@.take(j as int),
        decreases 32 - j,
    {
        out.push(d[j]);
        proof {
            assert(out@ =~= base + d@.take(j as int + 1));
        }
        j += 1;
    }
    proof {
        assert(d@.take(32) =~= d@);
    }
}

/// Append the four little-endian bytes of a 32-bit value.
fn push_le32(out: &mut Vec<u8>, p: u32)
    ensures
        final(out)@ == old(out)@ + le32(p),
{
    out.push((p & 0xff) as u8);
    out.push(((p >> 8) & 0xff) as u8);
    out.push(((p >> 16) & 0xff) as u8);
    out.push(((p >> 24) & 0xff) as u8);
    proof {
        assert(out@ =~= old(out)@ + le32(p));
    }
}

/// Append a string's raw bytes.
fn push_str_bytes(out: &mut Vec<u8>, s: &str)
    ensures
        final(out)@ == old(out)@ + encode_utf8(s@),
{
    let ghost base = out@;
    let bytes = s.as_bytes();
    let n = bytes.len();
    let mut j: usize = 0;
    while j < n
        invariant
            bytes@ == s.spec_bytes(),
            n == bytes@.len(),
            0 <= j <= n,
            out@ =~= base + bytes@.take(j as int),
        decreases n - j,
    {
        out.push(*vstd::slice::slice_index_get(bytes, j));
        proof {
            assert(out@ =~= base + bytes@.take(j as int + 1));
        }
        j += 1;
    }
    proof {
        assert(bytes@.take(n as int) =~= bytes@);
    }
}

/// Build the Merkle node for one scanned entry, appending the chunks of
/// every file under it, in depth-first order, to `all_chunks`.
fn build_node(entry: &ScannedEntry, all_chunks: &mut Vec<Chunk>) -> (node: Node)
    ensures
        node@ == spec_build(entry@),
        chunk_records(final(all_chunks)@) == chunk_records(old(all_chunks)@) + spec_build_chunks(
            entry@,
        ),
        entry_chunks_fit(entry@),
    decreases *entry,
{
    match entry {
        ScannedEntry::File { name, permissions, size, data } => {
            let mut chunks = chunk_data(data.as_slice());
            let ghost emitted = chunks@;
            let mut digests: Vec<Digest> = Vec::new();
            let mut hash_input: Vec<u8> = Vec::new();
            let n = chunks.len();
            let mut i: usize = 0;
            while i < n
                invariant
                    chunk_records(chunks@) == chunk_records_of(data@),
                    n == chunks@.len(),
                    0 <= i <= n,
                    digests@.len() == i,
                    forall|j: int| 0 <= j < i ==> #[trigger] digests@[j] == chunks@[j].hash,
                    hash_input@ =~= digest_views(digests@).flatten(),
                decreases n - i,
            {
                let d: Digest = chunks[i].hash;
                push_digest_bytes(&mut hash_input, &d);
                let ghost dv_old = digests@;
                digests.push(d);
                proof {
                    assert(digest_views(digests@) =~= digest_views(dv_old).push(d@));
                    assert(digest_views(dv_old).push(d@).flatten() == digest_views(dv_old).flatten()
                        + d@);
                    assert(hash_input@ =~= digest_views(digests@).flatten());
                }
                i += 1;
            }
            let hash = blake3_hash(hash_input.as_slice());
            append_chunks(all_chunks, &mut chunks);
            let node = Node::File {
                name: name.clone(),
                permissions: *permissions,
                size: *size,
                chunks: digests,
                hash,
            };
            proof {
                assert(digest_views(digests@) =~= spec_chunk_digests(data@));
                assert(chunk_records(old(all_chunks)@ + emitted) =~= chunk_records(
                    old(all_chunks)@,
                ) + chunk_records(emitted));
                assert(node@ =~= spec_build(entry@));
                let recs = chunk_records_of(data@);
                assert(chunk_records(emitted) == recs);
                assert(forall|i: int|
                    0 <= i < recs.len() ==> (#[trigger] recs[i]).1 == emitted[i].data@);
                assert(recs.map_values(|r: (Seq<u8>, Seq<u8>)| r.1) =~= crate::chunker::chunk_payloads(
                    emitted,
                ));
                assert(recs.map_values(|r: (Seq<u8>, Seq<u8>)| r.1).flatten() == data@);
                if 1 <= data@.len() <= crate::chunker::MIN_SIZE {
                    assert(recs[0].1 == emitted[0].data@);
                }
                assert(entry_chunks_fit(entry@));
            }
            node
        },
        ScannedEntry::Directory { name, permissions, children } => {
            let ghost pre = all_chunks@;
            let mut child_nodes: Vec<Node> = Vec::new();
            let mut hash_input: Vec<u8> = Vec::new();
            let n = children.len();
            let mut i: usize = 0;
            while i < n
                invariant
                    *entry is Directory,
                    (*entry)->Directory_children == *children,
                    n == children@.len(),
                    0 <= i <= n,
                    child_nodes@.len() == i,
                    forall|j: int|
                        0 <= j < i ==> (#[trigger] child_nodes@[j])@ == spec_build(children@[j]@),
                    forall|j: int| 0 <= j < i ==> entry_chunks_fit((#[trigger] children@[j])@),
                    hash_input@ =~= dir_hash_input(node_views(child_nodes@)),
                    chunk_records(all_chunks@) == chunk_records(pre)
                        + spec_build_chunks_children(crate::scanner::entry_views(children@).take(
                        i as int,
                    )),
                decreases n - i,
            {
                proof {
                    assert(decreases_to!(*entry => (*entry)->Directory_children));
                    assert(decreases_to!((*entry)->Directory_children
                        => (*entry)->Directory_children@));
                    assert(decreases_to!(
                        (*entry)->Directory_children@ => (*entry)->Directory_children@[i as int]
                    ));
                }
                let cn = build_node(&children[i], all_chunks);
                push_str_bytes(&mut hash_input, cn.name());
                match &cn {
                    Node::File { permissions, .. } => push_le32(&mut hash_input, *permissions),
                    Node::Directory { permissions, .. } => push_le32(&mut hash_input, *permissions),
                }
                push_digest_bytes(&mut hash_input, cn.hash());
                let ghost cv_old = child_nodes@;
                let ghost cn0 = cn;
                let ghost cnv = cn@;
                child_nodes.push(cn);
                proof {
                    crate::scanner::lemma_entry_views(children@);
                    assert(child_nodes@.drop_last() =~= cv_old);
                    assert(child_nodes@.last() == cn0);
                    assert(node_views(child_nodes@) == node_views(child_nodes@.drop_last()).push(
                        node_view(child_nodes@.last()),
                    ));
                    assert(node_views(child_nodes@) =~= node_views(cv_old).push(cnv));
                    let prev = node_views(cv_old).map_values(|c: NodeV| dir_hash_entry(c));
                    assert(node_views(cv_old).push(cnv).map_values(|c: NodeV| dir_hash_entry(c))
                        =~= prev.push(dir_hash_entry(cnv)));
                    assert(prev.push(dir_hash_entry(cnv)).flatten() == prev.flatten()
                        + dir_hash_entry(cnv));
                    assert(hash_input@ =~= dir_hash_input(node_views(child_nodes@)));
                    let evs = crate::scanner::entry_views(children@);
                    assert(evs.take(i + 1).drop_last() =~= evs.take(i as int));
                    assert(evs.take(i + 1).last() == children@[i as int]@);
                }
                i += 1;
            }
            let hash = blake3_hash(hash_input.as_slice());
            let node = Node::Directory {
                name: name.clone(),
                permissions: *permissions,
                children: child_nodes,
                hash,
            };
            proof {
                crate::scanner::lemma_entry_views(children@);
                let evs = crate::scanner::entry_views(children@);
                assert(evs.take(evs.len() as int) =~= evs);
                lemma_spec_build_children(evs);
                lemma_node_views((node)->Directory_children@);
                assert(node_views(child_nodes@) =~= spec_build_children(evs));
                assert(node@ =~= spec_build(entry@));
                assert(forall|j: int|
                    0 <= j < evs.len() ==> entry_chunks_fit(#[trigger] evs[j]));
                assert(entry_chunks_fit(entry@));
            }
            node
        },
    }
}

/// Move every chunk of `b` onto the end of `a`.
fn append_chunks(a: &mut Vec<Chunk>, b: &mut Vec<Chunk>)
    ensures
        final(a)@ == old(a)@ + old(b)@,
{
    let ghost a0 = a@;
    let ghost b0 = b@;
    while b.len() > 0
        invariant
            a@ + b@ =~= a0 + b0,
        decreases b@.len(),
    {
        let e = b.remove(0);
        a.push(e);
    }
    proof {
        assert(a@ =~= a@ + b@);
    }
}

/// Build a Merkle tree from a scanned entry, returning the root node and
/// every chunk of every file under it.
///
/// Both results are deterministic functions of the entry's names,
/// permissions and bytes alone.
pub fn build_tree(entry: ScannedEntry) -> (r: (Node, Vec<Chunk>))
    ensures
        r.0@ == spec_build(entry@),
        chunk_records(r.1@) == spec_build_chunks(entry@),
        entry_chunks_fit(entry@),
{
    let mut all_chunks: Vec<Chunk> = Vec::new();
    proof {
        assert(chunk_records(all_chunks@) =~= Seq::<(Seq<u8>, Seq<u8>)>::empty());
    }
    let node = build_node(&entry, &mut all_chunks);
    proof {
        assert(chunk_records(all_chunks@) =~= spec_build_chunks(entry@));
    }
    (node, all_chunks)
}

} // verus!
