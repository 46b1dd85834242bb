//! The single-file archive container: a fixed header, the unique chunk
//! payloads in first-seen order, and an index holding the tree and a
//! digest-to-span table. Extraction is proved to reproduce the tree the
//! archive was built from.

use vstd::prelude::*;
use vstd::slice::slice_index_get;

use crate::chunker::Chunk;
use crate::codec::{dec_digest, dec_u64, le_u64, spec_dec_node, spec_enc_node};
use crate::hashing::{digest_eq, Digest};
use crate::merkle::{node_views, Node, NodeV};
use crate::scanner::{EntryV, ScannedEntry};

verus! {

/// The archive magic: the first eight bytes of every archive.
pub open spec fn spec_magic() -> Seq<u8> {
    seq![87u8, 69u8, 66u8, 80u8, 85u8, 66u8, 0u8, 0u8]
}

/// The archive format version this crate writes and reads.
pub const VERSION: u8 = 1;

/// The header: magic, version, index offset, index size.
pub const HEADER_SIZE: usize = 25;

/// The archive magic, "WEBPUB" and two zero bytes.
pub fn magic_bytes() -> (r: [u8; 8])
    ensures
        r@ == spec_magic(),
{
    let r: [u8; 8] = [87u8, 69u8, 66u8, 80u8, 85u8, 66u8, 0u8, 0u8];
    proof {
        assert(r@ =~= spec_magic());
    }
    r
}

/// Where one chunk's bytes lie in the archive.
#[derive(Debug, Clone, Copy)]
pub struct ChunkLoc {
    pub hash: Digest,
    pub offset: u64,
    pub size: u64,
}

/// The archive index: the tree, and where each referenced chunk's bytes
/// lie.
#[derive(Debug)]
pub struct ArchiveIndex {
    pub tree: Node,
    pub chunk_offsets: Vec<ChunkLoc>,
}

/// What went wrong with an archive.
#[derive(Debug, Clone, Copy, PartialEq, Eq, Structural)]
pub enum ArchiveError {
    /// The first eight bytes are not the archive magic.
    BadMagic,
    /// The version byte names a format this crate does not read.
    BadVersion,
    /// The index is out of bounds or does not decode.
    CorruptIndex,
    /// The tree references a chunk digest the table does not hold.
    MissingChunk,
    /// A chunk span lies outside the archive bytes.
    BadSpan,
    /// The archive would not fit in memory.
    TooLarge,
}

impl ArchiveError {
    /// The fault, in words.
    pub fn message(&self) -> (r: &'static str)
        ensures
            *self is BadMagic ==> r@ == "invalid magic"@,
            *self is BadVersion ==> r@ == "unsupported version"@,
            *self is MissingChunk ==> r@ == "missing chunk"@,
    {
        match self {
            ArchiveError::BadMagic => "invalid magic",
            ArchiveError::BadVersion => "unsupported version",
            ArchiveError::CorruptIndex => "corrupt index",
            ArchiveError::MissingChunk => "missing chunk",
            ArchiveError::BadSpan => "chunk span out of bounds",
            ArchiveError::TooLarge => "archive too large",
        }
    }
}

/// The (digest, bytes) records kept when duplicates are dropped: of each
/// digest, the first record, in first-seen order.
pub open spec fn dedupe(records: Seq<(Seq<u8>, Seq<u8>)>) -> Seq<(Seq<u8>, Seq<u8>)>
    decreases records.len(),
{
    if records.len() == 0 {
        Seq::empty()
    } else {
        let prev = dedupe(records.drop_last());
        if exists|j: int| 0 <= j < records.len() - 1 && (#[trigger] records[j]).0 == records.last().0 {
            prev
        } else {
            prev.push(records.last())
        }
    }
}

/// The payload: the deduplicated chunks' bytes, back to back.
pub open spec fn payload_of(ded: Seq<(Seq<u8>, Seq<u8>)>) -> Seq<u8> {
    ded.map_values(|r: (Seq<u8>, Seq<u8>)| r.1).flatten()
}

/// The table rows: each deduplicated chunk's digest, offset and size, the
/// offsets running from the end of the header.
pub open spec fn table_of(ded: Seq<(Seq<u8>, Seq<u8>)>, base: int) -> Seq<(Seq<u8>, u64, u64)>
    decreases ded.len(),
{
    if ded.len() == 0 {
        Seq::empty()
    } else {
        table_of(ded.drop_last(), base).push(
            (
                ded.last().0,
                (base + payload_of(ded.drop_last()).len()) as u64,
                ded.last().1.len() as u64,
            ),
        )
    }
}

/// The encoding of one table row: digest, offset, size.
pub open spec fn enc_loc(e: (Seq<u8>, u64, u64)) -> Seq<u8> {
    e.0 + le_u64(e.1) + le_u64(e.2)
}

/// The encoding of the table rows, back to back.
pub open spec fn enc_locs(s: Seq<(Seq<u8>, u64, u64)>) -> Seq<u8>
    decreases s.len(),
{
    if s.len() == 0 {
        Seq::empty()
    } else {
        enc_loc(s.first()) + enc_locs(s.drop_first())
    }
}

/// Reading a run of `cnt` table rows.
pub open spec fn dec_locs(b: Seq<u8>, pos: int, cnt: int) -> Option<(Seq<(Seq<u8>, u64, u64)>, int)>
    decreases cnt,
{
    if cnt <= 0 {
        Some((Seq::empty(), pos))
    } else {
        match dec_digest(b, pos) {
            None => None,
            Some((d, p1)) => match dec_u64(b, p1) {
                None => None,
                Some((off, p2)) => match dec_u64(b, p2) {
                    None => None,
                    Some((size, p3)) => match dec_locs(b, p3, cnt - 1) {
                        None => None,
                        Some((rest, end)) => Some((seq![(d, off, size)] + rest, end)),
                    },
                },
            },
        }
    }
}

/// The encoding of the index: the tree, then the table row count, then
/// the rows.
pub open spec fn spec_enc_index(tree: NodeV, table: Seq<(Seq<u8>, u64, u64)>) -> Seq<u8> {
    spec_enc_node(tree) + le_u64(table.len() as u64) + enc_locs(table)
}

/// Reading the index.
pub open spec fn spec_dec_index(b: Seq<u8>, pos: int) -> Option<
    ((NodeV, Seq<(Seq<u8>, u64, u64)>), int),
>
    recommends
        0 <= pos <= b.len(),
{
    match spec_dec_node(b, pos) {
        None => None,
        Some((tree, p1)) => match dec_u64(b, p1) {
            None => None,
            Some((cnt, p2)) => match dec_locs(b, p2, cnt as int) {
                None => None,
                Some((table, end)) => Some(((tree, table), end)),
            },
        },
    }
}

/// The whole archive: header, payload, index.
pub open spec fn spec_archive_bytes(tree: NodeV, records: Seq<(Seq<u8>, Seq<u8>)>) -> Seq<u8> {
    let ded = dedupe(records);
    let payload = payload_of(ded);
    let index = spec_enc_index(tree, table_of(ded, HEADER_SIZE as int));
    spec_magic() + seq![VERSION] + le_u64((HEADER_SIZE + payload.len()) as u64) + le_u64(
        index.len() as u64,
    ) + payload + index
}

/// Whether an archive of the tree and records fits in memory: header,
/// payload and index within the machine's address range.
pub open spec fn archive_fits(tree: NodeV, records: Seq<(Seq<u8>, Seq<u8>)>) -> bool {
    HEADER_SIZE + payload_of(dedupe(records)).len() + spec_enc_index(
        tree,
        table_of(dedupe(records), HEADER_SIZE as int),
    ).len() <= usize::MAX
}


/// The views of the table rows.
pub open spec fn loc_views(s: Seq<ChunkLoc>) -> Seq<(Seq<u8>, u64, u64)> {
    s.map_values(|l: ChunkLoc| (l.hash@, l.offset, l.size))
}

/// A longer record prefix never shrinks the deduplicated payload.
proof fn lemma_payload_monotone(records: Seq<(Seq<u8>, Seq<u8>)>, i: int)
    requires
        0 <= i <= records.len(),
    ensures
        payload_of(dedupe(records.take(i))).len() <= payload_of(dedupe(records)).len(),
        dedupe(records.take(i)).len() <= dedupe(records).len(),
    decreases records.len() - i,
{
    broadcast use vstd::prelude::Seq::lemma_flatten_push;

    if i < records.len() {
        lemma_payload_monotone(records, i + 1);
        let a = records.take(i);
        let b = records.take(i + 1);
        assert(b.drop_last() =~= a);
        let da = dedupe(a);
        let db = dedupe(b);
        if exists|j: int| 0 <= j < b.len() - 1 && (#[trigger] b[j]).0 == b.last().0 {
            assert(db == da);
        } else {
            assert(db == da.push(b.last()));
            assert(db.map_values(|r: (Seq<u8>, Seq<u8>)| r.1) =~= da.map_values(
                |r: (Seq<u8>, Seq<u8>)| r.1,
            ).push(b.last().1));
            assert(payload_of(db) == payload_of(da) + b.last().1);
        }
    } else {
        assert(records.take(i) =~= records);
    }
}

/// Build the archive bytes for a tree and its chunk list: the header,
/// each unique chunk's bytes in first-seen order, and the index; nothing
/// is returned only when the archive would not fit in memory.
pub fn write_archive_bytes(tree: &Node, chunks: &Vec<Chunk>) -> (r: Option<Vec<u8>>)
    ensures
        r is Some <==> archive_fits(tree@, crate::chunker::chunk_records(chunks@)),
        r matches Some(b) ==> b@ == spec_archive_bytes(
            tree@,
            crate::chunker::chunk_records(chunks@),
        ),
{
    broadcast use vstd::prelude::Seq::lemma_flatten_push;

    let ghost records = crate::chunker::chunk_records(chunks@);
    let mut payload: Vec<u8> = Vec::new();
    let mut table: Vec<ChunkLoc> = Vec::new();
    let n = chunks.len();
    let mut i: usize = 0;
    proof {
        assert(records.take(0) =~= Seq::<(Seq<u8>, Seq<u8>)>::empty());
        assert(dedupe(records.take(0)) =~= Seq::<(Seq<u8>, Seq<u8>)>::empty());
        assert(payload@ =~= payload_of(dedupe(records.take(0))));
        assert(loc_views(table@) =~= table_of(dedupe(records.take(0)), HEADER_SIZE as int));
    }
    while i < n
        invariant
            records == crate::chunker::chunk_records(chunks@),
            n == chunks@.len(),
            records.len() == n,
            0 <= i <= n,
            payload@ == payload_of(dedupe(records.take(i as int))),
            loc_views(table@) == table_of(dedupe(records.take(i as int)), HEADER_SIZE as int),
            table@.len() == dedupe(records.take(i as int)).len(),
            forall|k: int|
                0 <= k < table@.len() ==> (#[trigger] table@[k]).hash@ == dedupe(
                    records.take(i as int),
                )[k].0,
            forall|j: int|
                0 <= j < i ==> exists|k: int|
                    0 <= k < table@.len() && (#[trigger] records[j]).0 == (
                    #[trigger] table@[k]).hash@,
        decreases n - i,
    {
        let ghost prei = i as int;
        let ghost ded_pre = dedupe(records.take(prei));
        let ghost tpre = table@;
        let h: Digest = chunks[i].hash;
        let mut found = false;
        let tl = table.len();
        let mut k: usize = 0;
        while k < tl
            invariant
                tl == table@.len(),
                0 <= k <= tl,
                h@ == records[prei].0,
                records == crate::chunker::chunk_records(chunks@),
                found <==> exists|q: int| 0 <= q < k && (#[trigger] table@[q]).hash@ == h@,
            decreases tl - k,
        {
            if digest_eq(&table[k].hash, &h) {
                found = true;
                proof {
                    assert(table@[k as int].hash@ == h@);
                }
                k = tl;
            } else {
                proof {
                    assert(table@[k as int].hash@ != h@);
                }
                k = k + 1;
            }
        }
        proof {
            let tk = records.take(prei + 1);
            assert(tk.drop_last() =~= records.take(prei));
            assert(tk.last() == records[prei]);
            assert(forall|j: int| 0 <= j < prei ==> #[trigger] tk[j] == records[j]);
            if found {
                let q = choose|q: int|
                    0 <= q < table@.len() && (#[trigger] table@[q]).hash@ == h@;
                assert(ded_pre[q].0 == h@);
                lemma_dedupe_has(records, prei, q);
                let jw = choose|j: int|
                    0 <= j < prei && (#[trigger] records[j]).0 == ded_pre[q].0;
                assert(tk[jw].0 == tk.last().0);
                assert(exists|j: int| 0 <= j < tk.len() - 1 && (#[trigger] tk[j]).0 == tk.last().0);
                assert(dedupe(tk) == ded_pre);
            } else {
                assert(forall|q: int|
                    0 <= q < table@.len() ==> (#[trigger] table@[q]).hash@ != h@);
                assert forall|j: int|
                    0 <= j < tk.len() - 1 implies (#[trigger] tk[j]).0 != tk.last().0 by {
                    assert(tk[j] == records[j]);
                    assert(exists|kk: int|
                        0 <= kk < table@.len() && (#[trigger] records[j]).0 == (
                        #[trigger] table@[kk]).hash@);
                    let kk = choose|kk: int|
                        0 <= kk < table@.len() && (#[trigger] records[j]).0 == (
                        #[trigger] table@[kk]).hash@;
                    assert(table@[kk].hash@ != h@);
                }
                assert(dedupe(tk) == ded_pre.push(records[prei]));
            }
        }
        if !found {
            if payload.len() > usize::MAX - HEADER_SIZE {
                proof {
                    lemma_payload_monotone(records, prei);
                    assert(!archive_fits(tree@, records));
                }
                return None;
            }
            let offset = (HEADER_SIZE + payload.len()) as u64;
            let data = &chunks[i].data;
            let size = data.len() as u64;
            let ghost pay_pre = payload@;
            let m = data.len();
            let mut w: usize = 0;
            while w < m
                invariant
                    m == data@.len(),
                    0 <= w <= m,
                    payload@ =~= pay_pre + data@.take(w as int),
                decreases m - w,
            {
                payload.push(data[w]);
                proof {
                    assert(payload@ =~= pay_pre + data@.take(w as int + 1));
                }
                w += 1;
            }
            proof {
                assert(data@.take(m as int) =~= data@);
                assert(payload@ =~= pay_pre + data@);
            }
            table.push(ChunkLoc { hash: h, offset, size });
            proof {
                assert(table@.last().hash@ == h@);
                assert(exists|kk: int|
                    0 <= kk < table@.len() && (#[trigger] table@[kk]).hash@ == h@);
                let ded_post = dedupe(records.take(prei + 1));
                assert(ded_post == ded_pre.push(records[prei]));
                assert(ded_post.drop_last() =~= ded_pre);
                let mp = ded_pre.map_values(|r: (Seq<u8>, Seq<u8>)| r.1);
                assert(ded_post.map_values(|r: (Seq<u8>, Seq<u8>)| r.1) =~= mp.push(
                    records[prei].1,
                ));
                mp.lemma_flatten_push(records[prei].1);
                assert(payload_of(ded_post) == payload_of(ded_pre) + records[prei].1);
                assert(payload@ =~= payload_of(ded_post));
                assert(loc_views(table@) =~= table_of(ded_post, HEADER_SIZE as int));
            }
        }
        proof {
            assert forall|j: int|
                0 <= j < prei + 1 implies exists|k: int|
                0 <= k < table@.len() && (#[trigger] records[j]).0 == (
                #[trigger] table@[k]).hash@ by {
                if j < prei {
                    let kk = choose|kk: int|
                        0 <= kk < tpre.len() && (#[trigger] records[j]).0 == (
                        #[trigger] tpre[kk]).hash@;
                    assert(table@[kk].hash@ == tpre[kk].hash@);
                    assert(records[j].0 == table@[kk].hash@);
                } else {
                    let kk = choose|kk: int|
                        0 <= kk < table@.len() && (#[trigger] table@[kk]).hash@ == h@;
                    assert(records[j].0 == table@[kk].hash@);
                }
            }
        }
        i += 1;
    }
    proof {
        assert(records.take(n as int) =~= records);
    }
    let ghost ded = dedupe(records);
    let mut index: Vec<u8> = Vec::new();
    crate::codec::enc_node(&mut index, tree);
    crate::codec::enc_u64(&mut index, table.len() as u64);
    let ghost idx_pre = index@;
    let tl = table.len();
    let mut k: usize = 0;
    proof {
        assert(enc_locs(loc_views(table@).take(0)) =~= Seq::<u8>::empty());
        assert(index@ =~= idx_pre + enc_locs(loc_views(table@).take(0)));
    }
    while k < tl
        invariant
            tl == table@.len(),
            0 <= k <= tl,
            index@ =~= idx_pre + enc_locs(loc_views(table@).take(k as int)),
        decreases tl - k,
    {
        let ghost lv = loc_views(table@);
        crate::codec::enc_digest_vec(&mut index, &table[k].hash);
        crate::codec::enc_u64(&mut index, table[k].offset);
        crate::codec::enc_u64(&mut index, table[k].size);
        proof {
            assert(lv.take(k + 1) =~= lv.take(k as int) + seq![lv[k as int]]);
            lemma_enc_locs_concat(lv.take(k as int), seq![lv[k as int]]);
            assert(enc_locs(Seq::<(Seq<u8>, u64, u64)>::empty()) =~= Seq::<u8>::empty());
            assert(seq![lv[k as int]].drop_first() =~= Seq::<(Seq<u8>, u64, u64)>::empty());
            assert(enc_locs(seq![lv[k as int]]) =~= enc_loc(lv[k as int]));
            assert(index@ =~= idx_pre + enc_locs(lv.take(k + 1)));
        }
        k += 1;
    }
    proof {
        assert(loc_views(table@).take(tl as int) =~= loc_views(table@));
        assert(index@ =~= spec_enc_index(tree@, table_of(ded, HEADER_SIZE as int)));
    }
    if payload.len() > usize::MAX - HEADER_SIZE || index.len() > usize::MAX - HEADER_SIZE
        - payload.len() {
        return None;
    }
    let index_off = (HEADER_SIZE + payload.len()) as u64;
    let index_size = index.len() as u64;
    let mut out: Vec<u8> = Vec::new();
    let magic = magic_bytes();
    let mut b: usize = 0;
    while b < 8
        invariant
            magic@ == spec_magic(),
            0 <= b <= 8,
            out@ =~= spec_magic().take(b as int),
        decreases 8 - b,
    {
        out.push(magic[b]);
        proof {
            assert(out@ =~= spec_magic().take(b as int + 1));
        }
        b += 1;
    }
    proof {
        assert(spec_magic().take(8) =~= spec_magic());
    }
    out.push(VERSION);
    crate::codec::enc_u64(&mut out, index_off);
    crate::codec::enc_u64(&mut out, index_size);
    crate::hashing::append_bytes_vec(&mut out, &mut payload);
    crate::hashing::append_bytes_vec(&mut out, &mut index);
    proof {
        assert(out@ =~= spec_archive_bytes(tree@, records));
    }
    Some(out)
}

/// Writing two runs of table rows one after the other writes their
/// concatenation.
pub proof fn lemma_enc_locs_concat(a: Seq<(Seq<u8>, u64, u64)>, c: Seq<(Seq<u8>, u64, u64)>)
    ensures
        enc_locs(a + c) == enc_locs(a) + enc_locs(c),
    decreases a.len(),
{
    if a.len() == 0 {
        assert(a + c =~= c);
        assert(enc_locs(a) + enc_locs(c) =~= enc_locs(c));
    } else {
        assert((a + c).first() == a.first());
        assert((a + c).drop_first() =~= a.drop_first() + c);
        lemma_enc_locs_concat(a.drop_first(), c);
        assert(enc_locs(a + c) =~= enc_locs(a) + enc_locs(c));
    }
}

/// A digest of a deduplicated record names some earlier record.
proof fn lemma_dedupe_has(records: Seq<(Seq<u8>, Seq<u8>)>, i: int, q: int)
    requires
        0 <= i <= records.len(),
        0 <= q < dedupe(records.take(i)).len(),
    ensures
        exists|j: int|
            0 <= j < i && (#[trigger] records[j]).0 == dedupe(records.take(i))[q].0,
    decreases i,
{
    if i > 0 {
        let a = records.take(i);
        let prev = dedupe(records.take(i - 1));
        assert(a.drop_last() =~= records.take(i - 1));
        if exists|j: int| 0 <= j < a.len() - 1 && (#[trigger] a[j]).0 == a.last().0 {
            assert(dedupe(a) == prev);
            lemma_dedupe_has(records, i - 1, q);
        } else {
            assert(dedupe(a) == prev.push(a.last()));
            if q < prev.len() {
                lemma_dedupe_has(records, i - 1, q);
            } else {
                assert(dedupe(a)[q] == a.last());
                assert(records[i - 1].0 == dedupe(records.take(i))[q].0);
            }
        }
    }
}


/// The first table row carrying the digest, or -1 if none.
pub open spec fn find_loc(table: Seq<(Seq<u8>, u64, u64)>, d: Seq<u8>) -> int
    decreases table.len(),
{
    if table.len() == 0 {
        -1
    } else if table.first().0 == d {
        0
    } else {
        let r = find_loc(table.drop_first(), d);
        if r == -1 {
            -1
        } else {
            1 + r
        }
    }
}

/// A file body reassembled from archive spans: each digest looked up in
/// the table, its span read from the archive bytes, in order.
pub open spec fn assemble_spans(
    ds: Seq<Seq<u8>>,
    table: Seq<(Seq<u8>, u64, u64)>,
    b: Seq<u8>,
) -> Result<Seq<u8>, ArchiveError>
    decreases ds.len(),
{
    if ds.len() == 0 {
        Ok(Seq::empty())
    } else {
        let k = find_loc(table, ds.first());
        if k == -1 {
            Err(ArchiveError::MissingChunk)
        } else {
            let off = table[k].1 as int;
            let size = table[k].2 as int;
            if off + size <= b.len() {
                match assemble_spans(ds.drop_first(), table, b) {
                    Err(e) => Err(e),
                    Ok(rest) => Ok(b.subrange(off, off + size) + rest),
                }
            } else {
                Err(ArchiveError::BadSpan)
            }
        }
    }
}

/// A scanned tree rebuilt from an archived tree: files reassembled from
/// spans, directories rebuilt child by child.
pub open spec fn spec_rebuild(
    t: NodeV,
    table: Seq<(Seq<u8>, u64, u64)>,
    b: Seq<u8>,
) -> Result<EntryV, ArchiveError>
    decreases t, 0nat,
{
    match t {
        NodeV::File { name, permissions, size, chunks, .. } => match assemble_spans(
            chunks,
            table,
            b,
        ) {
            Err(e) => Err(e),
            Ok(data) => Ok(EntryV::File { name, permissions, size, data }),
        },
        NodeV::Directory { name, permissions, children, .. } => match spec_rebuild_children(
            children,
            table,
            b,
        ) {
            Err(e) => Err(e),
            Ok(kids) => Ok(EntryV::Directory { name, permissions, children: kids }),
        },
    }
}

pub open spec fn spec_rebuild_children(
    s: Seq<NodeV>,
    table: Seq<(Seq<u8>, u64, u64)>,
    b: Seq<u8>,
) -> Result<Seq<EntryV>, ArchiveError>
    decreases s, 1nat,
{
    if s.len() == 0 {
        Ok(Seq::empty())
    } else {
        match spec_rebuild(s.first(), table, b) {
            Err(e) => Err(e),
            Ok(head) => match spec_rebuild_children(s.drop_first(), table, b) {
                Err(e) => Err(e),
                Ok(rest) => Ok(seq![head] + rest),
            },
        }
    }
}

/// What extracting an archive yields: the tree rebuilt from the index and
/// the chunk spans, or the first fault found.
pub open spec fn spec_extract(b: Seq<u8>) -> Result<EntryV, ArchiveError> {
    if b.len() < 8 || b.subrange(0, 8) != spec_magic() {
        Err(ArchiveError::BadMagic)
    } else if b.len() < 9 || b[8] != VERSION {
        Err(ArchiveError::BadVersion)
    } else {
        match dec_u64(b, 9) {
            None => Err(ArchiveError::CorruptIndex),
            Some((index_off, _)) => match dec_u64(b, 17) {
                None => Err(ArchiveError::CorruptIndex),
                Some((index_size, _)) => {
                    if index_off > b.len() || index_size > b.len() - index_off {
                        Err(ArchiveError::CorruptIndex)
                    } else {
                        match spec_dec_index(b, index_off as int) {
                            None => Err(ArchiveError::CorruptIndex),
                            Some(((tree, table), _)) => spec_rebuild(tree, table, b),
                        }
                    }
                },
            },
        }
    }
}

/// Find the first table row carrying the digest.
fn find_loc_exec(table: &Vec<ChunkLoc>, d: &Digest) -> (r: Option<usize>)
    ensures
        ({
            let k = find_loc(loc_views(table@), d@);
            match r {
                Some(i) => k == i && 0 <= i < table@.len(),
                None => k == -1,
            }
        }),
{
    let n = table.len();
    let mut i: usize = 0;
    while i < n
        invariant
            n == table@.len(),
            0 <= i <= n,
            forall|q: int| 0 <= q < i ==> (#[trigger] table@[q]).hash@ != d@,
        decreases n - i,
    {
        if digest_eq(&table[i].hash, d) {
            proof {
                lemma_find_loc_at(loc_views(table@), d@, i as int);
            }
            return Some(i);
        }
        i += 1;
    }
    proof {
        lemma_find_loc_none(loc_views(table@), d@);
    }
    None
}

/// `find_loc` is the first index whose row carries the digest.
proof fn lemma_find_loc_at(table: Seq<(Seq<u8>, u64, u64)>, d: Seq<u8>, j: int)
    requires
        0 <= j < table.len(),
        table[j].0 == d,
        forall|q: int| 0 <= q < j ==> (#[trigger] table[q]).0 != d,
    ensures
        find_loc(table, d) == j,
    decreases j,
{
    if j > 0 {
        assert(forall|q: int| 0 <= q < j - 1 ==> table.drop_first()[q] == table[q + 1]);
        lemma_find_loc_at(table.drop_first(), d, j - 1);
    }
}

/// When no row carries the digest, `find_loc` is -1.
proof fn lemma_find_loc_none(table: Seq<(Seq<u8>, u64, u64)>, d: Seq<u8>)
    requires
        forall|q: int| 0 <= q < table.len() ==> (#[trigger] table[q]).0 != d,
    ensures
        find_loc(table, d) == -1,
    decreases table.len(),
{
    if table.len() > 0 {
        assert(forall|q: int|
            0 <= q < table.len() - 1 ==> table.drop_first()[q] == table[q + 1]);
        lemma_find_loc_none(table.drop_first(), d);
    }
}

/// Reassemble one file's bytes from its chunk digests.
fn assemble_file(
    bytes: &[u8],
    table: &Vec<ChunkLoc>,
    chunks: &Vec<Digest>,
) -> (r: Result<Vec<u8>, ArchiveError>)
    ensures
        ({
            match assemble_spans(crate::merkle::digest_views(chunks@), loc_views(table@), bytes@) {
                Ok(data) => r matches Ok(v) && v@ == data,
                Err(e) => r matches Err(e2) && e2 == e,
            }
        }),
    decreases chunks@.len(),
{
    let ghost ds = crate::merkle::digest_views(chunks@);
    let mut out: Vec<u8> = Vec::new();
    let n = chunks.len();
    let mut i: usize = 0;
    proof {
        assert(ds.skip(0) =~= ds);
    }
    while i < n
        invariant
            ds == crate::merkle::digest_views(chunks@),
            n == chunks@.len(),
            ds.len() == n,
            0 <= i <= n,
            ({
                match assemble_spans(ds.skip(i as int), loc_views(table@), bytes@) {
                    Ok(rest) => assemble_spans(ds, loc_views(table@), bytes@) == Ok::<
                        Seq<u8>,
                        ArchiveError,
                    >(out@ + rest),
                    Err(e) => assemble_spans(ds, loc_views(table@), bytes@) == Err::<
                        Seq<u8>,
                        ArchiveError,
                    >(e),
                }
            }),
        decreases n - i,
    {
        let ghost pre_out = out@;
        let ghost tail = ds.skip(i as int);
        proof {
            assert(tail.first() == ds[i as int]);
            assert(tail.drop_first() =~= ds.skip(i as int + 1));
        }
        let loc = find_loc_exec(table, &chunks[i]);
        let k = match loc {
            Some(k) => k,
            None => {
                proof {
                    assert(assemble_spans(tail, loc_views(table@), bytes@) == Err::<
                        Seq<u8>,
                        ArchiveError,
                    >(ArchiveError::MissingChunk));
                }
                return Err(ArchiveError::MissingChunk);
            },
        };
        proof {
            assert(loc_views(table@)[k as int] == (
                table@[k as int].hash@,
                table@[k as int].offset,
                table@[k as int].size,
            ));
        }
        let off = table[k].offset;
        let size = table[k].size;
        let blen = bytes.len();
        if off > blen as u64 || size > blen as u64 - off {
            proof {
                assert(assemble_spans(tail, loc_views(table@), bytes@) == Err::<
                    Seq<u8>,
                    ArchiveError,
                >(ArchiveError::BadSpan));
            }
            return Err(ArchiveError::BadSpan);
        }
        let mut w: usize = 0;
        let base = off as usize;
        let m = size as usize;
        proof {
            assert(base == off && m == size);
            assert(base + m <= bytes@.len());
        }
        while w < m
            invariant
                base + m <= bytes@.len(),
                bytes@.len() <= usize::MAX,
                0 <= w <= m,
                out@ =~= pre_out + bytes@.subrange(base as int, base + w as int),
            decreases m - w,
        {
            out.push(*slice_index_get(bytes, base + w));
            proof {
                assert(out@ =~= pre_out + bytes@.subrange(base as int, base + w + 1));
            }
            w += 1;
        }
        proof {
            let lv = loc_views(table@);
            let span = bytes@.subrange(off as int, off + size);
            assert(out@ =~= pre_out + span);
            match assemble_spans(ds.skip(i as int + 1), lv, bytes@) {
                Ok(rest) => {
                    assert(assemble_spans(tail, lv, bytes@) == Ok::<Seq<u8>, ArchiveError>(
                        span + rest,
                    ));
                    assert(pre_out + (span + rest) =~= (pre_out + span) + rest);
                },
                Err(e) => {
                    assert(assemble_spans(tail, lv, bytes@) == Err::<Seq<u8>, ArchiveError>(e));
                },
            }
        }
        i += 1;
    }
    proof {
        assert(ds.skip(n as int) =~= Seq::<Seq<u8>>::empty());
        assert(out@ + Seq::<u8>::empty() =~= out@);
    }
    Ok(out)
}

/// Rebuild the scanned tree below one archived node.
fn rebuild_node(
    bytes: &[u8],
    table: &Vec<ChunkLoc>,
    node: &Node,
) -> (r: Result<ScannedEntry, ArchiveError>)
    ensures
        ({
            match spec_rebuild(node@, loc_views(table@), bytes@) {
                Ok(ev) => r matches Ok(e) && e@ == ev,
                Err(er) => r matches Err(er2) && er2 == er,
            }
        }),
    decreases *node,
{
    match node {
        Node::File { name, permissions, size, chunks, .. } => {
            let data = match assemble_file(bytes, table, chunks) {
                Ok(d) => d,
                Err(e) => {
                    return Err(e);
                },
            };
            Ok(
                ScannedEntry::File {
                    name: crate::server::storage::clone_string(name),
                    permissions: *permissions,
                    size: *size,
                    data,
                },
            )
        },
        Node::Directory { name, permissions, children, .. } => {
            let mut kids: Vec<ScannedEntry> = Vec::new();
            let n = children.len();
            let mut i: usize = 0;
            proof {
                crate::merkle::lemma_node_views(children@);
                let cs = crate::merkle::node_views(children@);
                assert(cs.skip(0) =~= cs);
                assert(crate::scanner::entry_views(kids@) =~= Seq::<EntryV>::empty());
                match spec_rebuild_children(cs, loc_views(table@), bytes@) {
                    Ok(rest) => {
                        assert(Seq::<EntryV>::empty() + rest =~= rest);
                    },
                    Err(e) => {},
                }
            }
            while i < n
                invariant
                    *node is Directory,
                    (*node)->Directory_children == *children,
                    n == children@.len(),
                    crate::merkle::node_views(children@).len() == n,
                    forall|k: int|
                        0 <= k < n ==> #[trigger] crate::merkle::node_views(children@)[k]
                            == children@[k]@,
                    0 <= i <= n,
                    ({
                        let cs = crate::merkle::node_views(children@);
                        match spec_rebuild_children(cs.skip(i as int), loc_views(table@), bytes@) {
                            Ok(rest) => spec_rebuild_children(cs, loc_views(table@), bytes@)
                                == Ok::<Seq<EntryV>, ArchiveError>(
                                crate::scanner::entry_views(kids@) + rest,
                            ),
                            Err(e) => spec_rebuild_children(cs, loc_views(table@), bytes@) == Err::<
                                Seq<EntryV>,
                                ArchiveError,
                            >(e),
                        }
                    }),
                decreases n - i,
            {
                let ghost cs = crate::merkle::node_views(children@);
                let ghost tail = cs.skip(i as int);
                proof {
                    assert(tail.first() == cs[i as int]);
                    assert(tail.drop_first() =~= cs.skip(i as int + 1));
                    assert(decreases_to!(*node => (*node)->Directory_children));
                    assert(decreases_to!((*node)->Directory_children
                        => (*node)->Directory_children@));
                    assert(decreases_to!(
                        (*node)->Directory_children@ => (*node)->Directory_children@[i as int]
                    ));
                }
                let ghost kpre = kids@;
                let kid = match rebuild_node(bytes, table, &children[i]) {
                    Ok(k) => k,
                    Err(e) => {
                        proof {
                            assert(spec_rebuild_children(tail, loc_views(table@), bytes@)
                                == Err::<Seq<EntryV>, ArchiveError>(spec_rebuild(
                                cs[i as int],
                                loc_views(table@),
                                bytes@,
                            )->Err_0));
                        }
                        return Err(e);
                    },
                };
                kids.push(kid);
                proof {
                    crate::scanner::lemma_entry_views(kpre);
                    crate::scanner::lemma_entry_views(kids@);
                    assert(crate::scanner::entry_views(kids@) =~= crate::scanner::entry_views(kpre)
                        + seq![kids@.last()@]);
                    let lv = loc_views(table@);
                    let head = spec_rebuild(cs[i as int], lv, bytes@)->Ok_0;
                    assert(kids@.last()@ == head);
                    match spec_rebuild_children(cs.skip(i as int + 1), lv, bytes@) {
                        Ok(rest) => {
                            assert(spec_rebuild_children(tail, lv, bytes@) == Ok::<
                                Seq<EntryV>,
                                ArchiveError,
                            >(seq![head] + rest));
                            assert(crate::scanner::entry_views(kpre) + (seq![head] + rest)
                                =~= crate::scanner::entry_views(kids@) + rest);
                        },
                        Err(e) => {
                            assert(spec_rebuild_children(tail, lv, bytes@) == Err::<
                                Seq<EntryV>,
                                ArchiveError,
                            >(e));
                        },
                    }
                }
                i += 1;
            }
            proof {
                let cs = crate::merkle::node_views(children@);
                assert(cs.skip(n as int) =~= Seq::<NodeV>::empty());
                assert(crate::scanner::entry_views(kids@) + Seq::<EntryV>::empty()
                    =~= crate::scanner::entry_views(kids@));
            }
            Ok(
                ScannedEntry::Directory {
                    name: crate::server::storage::clone_string(name),
                    permissions: *permissions,
                    children: kids,
                },
            )
        },
    }
}

/// Extract an archive: verify the header, decode the index, and rebuild
/// the scanned tree, reassembling every file from its chunk spans.
pub fn extract_archive(bytes: &[u8]) -> (r: Result<ScannedEntry, ArchiveError>)
    ensures
        ({
            match spec_extract(bytes@) {
                Ok(ev) => r matches Ok(e) && e@ == ev,
                Err(er) => r matches Err(er2) && er2 == er,
            }
        }),
{
    if bytes.len() < 8 {
        return Err(ArchiveError::BadMagic);
    }
    let magic = magic_bytes();
    let mut i: usize = 0;
    while i < 8
        invariant
            bytes@.len() >= 8,
            magic@ == spec_magic(),
            0 <= i <= 8,
            forall|k: int| 0 <= k < i ==> bytes@[k] == spec_magic()[k],
        decreases 8 - i,
    {
        if *slice_index_get(bytes, i) != magic[i] {
            proof {
                assert(bytes@.subrange(0, 8)[i as int] != spec_magic()[i as int]);
            }
            return Err(ArchiveError::BadMagic);
        }
        i += 1;
    }
    proof {
        assert(bytes@.subrange(0, 8) =~= spec_magic());
    }
    if bytes.len() < 9 {
        return Err(ArchiveError::BadVersion);
    }
    if *slice_index_get(bytes, 8) != VERSION {
        return Err(ArchiveError::BadVersion);
    }
    let (index_off, _) = match crate::codec::read_u64(bytes, 9) {
        Some(x) => x,
        None => {
            return Err(ArchiveError::CorruptIndex);
        },
    };
    let (index_size, _) = match crate::codec::read_u64(bytes, 17) {
        Some(x) => x,
        None => {
            return Err(ArchiveError::CorruptIndex);
        },
    };
    if index_off > bytes.len() as u64 || index_size > bytes.len() as u64 - index_off {
        return Err(ArchiveError::CorruptIndex);
    }
    let (index, _) = match read_index(bytes, index_off as usize) {
        Some(x) => x,
        None => {
            return Err(ArchiveError::CorruptIndex);
        },
    };
    rebuild_node(bytes, &index.chunk_offsets, &index.tree)
}

/// Read the index: the tree, then the table.
fn read_index(bytes: &[u8], pos: usize) -> (r: Option<(ArchiveIndex, usize)>)
    requires
        pos <= bytes@.len(),
    ensures
        ({
            match spec_dec_index(bytes@, pos as int) {
                Some(((tree, table), end)) => r matches Some(p) && p.0.tree@ == tree && loc_views(
                    p.0.chunk_offsets@,
                ) == table && p.1 == end,
                None => r is None,
            }
        }),
{
    let (tree, p1) = match crate::codec::read_node(bytes, pos) {
        Some(x) => x,
        None => {
            return None;
        },
    };
    let (cnt, p2) = match crate::codec::read_u64(bytes, p1) {
        Some(x) => x,
        None => {
            return None;
        },
    };
    let (locs, end) = match read_loc_run(bytes, p2, cnt) {
        Some(x) => x,
        None => {
            return None;
        },
    };
    Some((ArchiveIndex { tree, chunk_offsets: locs }, end))
}

/// Read a run of table rows.
fn read_loc_run(bytes: &[u8], pos: usize, cnt: u64) -> (r: Option<(Vec<ChunkLoc>, usize)>)
    ensures
        ({
            match dec_locs(bytes@, pos as int, cnt as int) {
                Some((ls, end)) => r matches Some(p) && loc_views(p.0@) == ls && p.1 == end,
                None => r is None,
            }
        }),
    decreases cnt,
{
    if cnt == 0 {
        let v: Vec<ChunkLoc> = Vec::new();
        proof {
            assert(loc_views(v@) =~= Seq::<(Seq<u8>, u64, u64)>::empty());
        }
        return Some((v, pos));
    }
    let (d, p1) = match crate::codec::read_digest(bytes, pos) {
        Some(x) => x,
        None => {
            return None;
        },
    };
    let (off, p2) = match crate::codec::read_u64(bytes, p1) {
        Some(x) => x,
        None => {
            return None;
        },
    };
    let (size, p3) = match crate::codec::read_u64(bytes, p2) {
        Some(x) => x,
        None => {
            return None;
        },
    };
    let (mut rest, end) = match read_loc_run(bytes, p3, cnt - 1) {
        Some(x) => x,
        None => {
            return None;
        },
    };
    rest.insert(0, ChunkLoc { hash: d, offset: off, size });
    proof {
        let ls0 = dec_locs(bytes@, pos as int, cnt as int).unwrap().0;
        assert(loc_views(rest@) =~= ls0);
    }
    Some((rest, end))
}


/// No two records share a digest without sharing their bytes.
pub open spec fn records_collision_free(rs: Seq<(Seq<u8>, Seq<u8>)>) -> bool {
    forall|i: int, j: int|
        0 <= i < rs.len() && 0 <= j < rs.len() && (#[trigger] rs[i]).0 == (#[trigger] rs[j]).0
            ==> rs[i].1 == rs[j].1
}

/// Every record's digest is 32 bytes wide.
pub open spec fn records_digests_wide(rs: Seq<(Seq<u8>, Seq<u8>)>) -> bool {
    forall|i: int| 0 <= i < rs.len() ==> (#[trigger] rs[i]).0.len() == 32
}

/// Every deduplicated record is one of the records.
proof fn lemma_dedupe_elem(rs: Seq<(Seq<u8>, Seq<u8>)>, q: int)
    requires
        0 <= q < dedupe(rs).len(),
    ensures
        exists|j: int| 0 <= j < rs.len() && #[trigger] rs[j] == dedupe(rs)[q],
    decreases rs.len(),
{
    if rs.len() > 0 {
        let prev = dedupe(rs.drop_last());
        if exists|j: int| 0 <= j < rs.len() - 1 && (#[trigger] rs[j]).0 == rs.last().0 {
            lemma_dedupe_elem(rs.drop_last(), q);
            let j = choose|j: int|
                0 <= j < rs.drop_last().len() && #[trigger] rs.drop_last()[j] == dedupe(
                    rs.drop_last(),
                )[q];
            assert(rs[j] == dedupe(rs)[q]);
        } else {
            if q < prev.len() {
                lemma_dedupe_elem(rs.drop_last(), q);
                let j = choose|j: int|
                    0 <= j < rs.drop_last().len() && #[trigger] rs.drop_last()[j] == dedupe(
                        rs.drop_last(),
                    )[q];
                assert(rs[j] == dedupe(rs)[q]);
            } else {
                assert(rs[rs.len() - 1] == dedupe(rs)[q]);
            }
        }
    }
}

/// A digest that occurs among the records occurs among the deduplicated
/// ones.
proof fn lemma_dedupe_complete(rs: Seq<(Seq<u8>, Seq<u8>)>, j: int)
    requires
        0 <= j < rs.len(),
    ensures
        exists|q: int| 0 <= q < dedupe(rs).len() && (#[trigger] dedupe(rs)[q]).0 == rs[j].0,
    decreases rs.len(),
{
    if rs.len() > 0 {
        let prev = dedupe(rs.drop_last());
        if exists|k: int| 0 <= k < rs.len() - 1 && (#[trigger] rs[k]).0 == rs.last().0 {
            if j == rs.len() - 1 {
                let k = choose|k: int|
                    0 <= k < rs.len() - 1 && (#[trigger] rs[k]).0 == rs.last().0;
                lemma_dedupe_complete(rs.drop_last(), k);
                let q = choose|q: int|
                    0 <= q < prev.len() && (#[trigger] prev[q]).0 == rs.drop_last()[k].0;
                assert(dedupe(rs)[q].0 == rs[j].0);
            } else {
                lemma_dedupe_complete(rs.drop_last(), j);
                let q = choose|q: int|
                    0 <= q < prev.len() && (#[trigger] prev[q]).0 == rs.drop_last()[j].0;
                assert(dedupe(rs)[q].0 == rs[j].0);
            }
        } else {
            if j == rs.len() - 1 {
                assert(dedupe(rs)[dedupe(rs).len() - 1].0 == rs[j].0);
            } else {
                lemma_dedupe_complete(rs.drop_last(), j);
                let q = choose|q: int|
                    0 <= q < prev.len() && (#[trigger] prev[q]).0 == rs.drop_last()[j].0;
                assert(dedupe(rs)[q].0 == rs[j].0);
            }
        }
    }
}

/// Deduplicated digests are pairwise distinct.
proof fn lemma_dedupe_distinct(rs: Seq<(Seq<u8>, Seq<u8>)>)
    ensures
        forall|a: int, b: int|
            0 <= a < b < dedupe(rs).len() ==> (#[trigger] dedupe(rs)[a]).0 != (
            #[trigger] dedupe(rs)[b]).0,
    decreases rs.len(),
{
    if rs.len() > 0 {
        lemma_dedupe_distinct(rs.drop_last());
        let prev = dedupe(rs.drop_last());
        if exists|k: int| 0 <= k < rs.len() - 1 && (#[trigger] rs[k]).0 == rs.last().0 {
        } else {
            assert forall|a: int, b: int|
                0 <= a < b < dedupe(rs).len() implies (#[trigger] dedupe(rs)[a]).0 != (
            #[trigger] dedupe(rs)[b]).0 by {
                if b == dedupe(rs).len() - 1 {
                    assert(dedupe(rs)[a] == prev[a]);
                    lemma_dedupe_elem(rs.drop_last(), a);
                    let j = choose|j: int|
                        0 <= j < rs.drop_last().len() && #[trigger] rs.drop_last()[j] == prev[a];
                    assert(rs[j].0 == prev[a].0);
                    assert(rs[j].0 != rs.last().0);
                } else {
                    assert(dedupe(rs)[a] == prev[a]);
                    assert(dedupe(rs)[b] == prev[b]);
                }
            }
        }
    }
}

/// Row `q` of the table: the digest and size of record `q`, at the offset
/// past all earlier payloads.
proof fn lemma_table_row(ded: Seq<(Seq<u8>, Seq<u8>)>, base: int, q: int)
    requires
        0 <= q < ded.len(),
    ensures
        table_of(ded, base).len() == ded.len(),
        table_of(ded, base)[q] == (
            ded[q].0,
            (base + payload_of(ded.take(q)).len()) as u64,
            ded[q].1.len() as u64,
        ),
    decreases ded.len(),
{
    lemma_table_len(ded, base);
    if q == ded.len() - 1 {
        assert(ded.take(q) =~= ded.drop_last());
    } else {
        lemma_table_row(ded.drop_last(), base, q);
        assert(ded.drop_last().take(q) =~= ded.take(q));
        assert(ded.drop_last()[q] == ded[q]);
    }
}

/// The table has one row per deduplicated record.
proof fn lemma_table_len(ded: Seq<(Seq<u8>, Seq<u8>)>, base: int)
    ensures
        table_of(ded, base).len() == ded.len(),
    decreases ded.len(),
{
    if ded.len() > 0 {
        lemma_table_len(ded.drop_last(), base);
    }
}

/// The payload splits at record `q`: everything before, its bytes, and
/// everything after.
proof fn lemma_payload_at(ded: Seq<(Seq<u8>, Seq<u8>)>, q: int)
    requires
        0 <= q < ded.len(),
    ensures
        payload_of(ded.take(q)).len() + ded[q].1.len() <= payload_of(ded).len(),
        payload_of(ded).subrange(
            payload_of(ded.take(q)).len() as int,
            payload_of(ded.take(q)).len() + ded[q].1.len() as int,
        ) == ded[q].1,
{
    let f = |r: (Seq<u8>, Seq<u8>)| r.1;
    let a = ded.take(q);
    let mid = seq![ded[q]];
    let c = ded.skip(q + 1);
    assert(ded =~= a + mid + c);
    assert((a + mid + c).map_values(f) =~= a.map_values(f) + mid.map_values(f) + c.map_values(f));
    vstd::seq_lib::lemma_flatten_concat(
        a.map_values(f) + mid.map_values(f),
        c.map_values(f),
    );
    vstd::seq_lib::lemma_flatten_concat(a.map_values(f), mid.map_values(f));
    assert(mid.map_values(f) =~= seq![ded[q].1]);
    seq![ded[q].1].lemma_flatten_one_element();
    assert(seq![ded[q].1].flatten() == ded[q].1);
    assert(payload_of(ded) == payload_of(a) + ded[q].1 + payload_of(c));
    assert(payload_of(ded).subrange(
        payload_of(a).len() as int,
        payload_of(a).len() + ded[q].1.len() as int,
    ) =~= ded[q].1);
}


/// Table rows written back to back occupy 48 bytes each.
proof fn lemma_enc_locs_len(tb: Seq<(Seq<u8>, u64, u64)>)
    requires
        forall|i: int| 0 <= i < tb.len() ==> (#[trigger] tb[i]).0.len() == 32,
    ensures
        enc_locs(tb).len() == 48 * tb.len(),
    decreases tb.len(),
{
    if tb.len() > 0 {
        assert(forall|i: int|
            0 <= i < tb.drop_first().len() ==> (#[trigger] tb.drop_first()[i]) == tb[i + 1]);
        lemma_enc_locs_len(tb.drop_first());
    }
}

/// Reading back a run of table rows written whole yields them.
proof fn lemma_locs_round_trip(tb: Seq<(Seq<u8>, u64, u64)>, b: Seq<u8>, pos: int)
    requires
        forall|i: int| 0 <= i < tb.len() ==> (#[trigger] tb[i]).0.len() == 32,
        0 <= pos,
        pos + 48 * tb.len() <= b.len(),
        b.subrange(pos, pos + 48 * tb.len()) == enc_locs(tb),
    ensures
        dec_locs(b, pos, tb.len() as int) == Some((tb, pos + 48 * tb.len())),
    decreases tb.len(),
{
    lemma_enc_locs_len(tb);
    if tb.len() > 0 {
        let whole = b.subrange(pos, pos + 48 * tb.len());
        let first = tb.first();
        let rest = tb.drop_first();
        assert(forall|i: int| 0 <= i < rest.len() ==> (#[trigger] rest[i]) == tb[i + 1]);
        lemma_enc_locs_len(rest);
        assert(whole.subrange(0, 48) =~= enc_loc(first));
        assert(b.subrange(pos, pos + 32) =~= whole.subrange(0, 32));
        assert(whole.subrange(0, 32) =~= first.0);
        assert(dec_digest(b, pos) == Some((first.0, pos + 32)));
        assert(b.subrange(pos + 32, pos + 40) =~= whole.subrange(32, 40));
        assert(whole.subrange(32, 40) =~= le_u64(first.1));
        crate::codec::lemma_u64_round_trip(first.1, b, pos + 32);
        assert(b.subrange(pos + 40, pos + 48) =~= whole.subrange(40, 48));
        assert(whole.subrange(40, 48) =~= le_u64(first.2));
        crate::codec::lemma_u64_round_trip(first.2, b, pos + 40);
        assert(b.subrange(pos + 48, pos + 48 + 48 * rest.len()) =~= whole.subrange(
            48,
            48 + 48 * rest.len() as int,
        ));
        assert(whole.subrange(48, 48 + 48 * rest.len() as int) =~= enc_locs(rest));
        lemma_locs_round_trip(rest, b, pos + 48);
        assert(seq![first] + rest =~= tb);
        assert(seq![(first.0, first.1, first.2)] =~= seq![first]);
    } else {
        assert(tb =~= Seq::<(Seq<u8>, u64, u64)>::empty());
    }
}

/// What the table says of a record's digest: the first row carrying it
/// names a span of the archive that holds exactly the record's bytes.
proof fn lemma_table_lookup(
    rs: Seq<(Seq<u8>, Seq<u8>)>,
    b: Seq<u8>,
    d: Seq<u8>,
    dat: Seq<u8>,
    j: int,
)
    requires
        records_collision_free(rs),
        0 <= j < rs.len(),
        rs[j] == (d, dat),
        b.len() >= HEADER_SIZE + payload_of(dedupe(rs)).len(),
        payload_of(dedupe(rs)).len() + HEADER_SIZE <= usize::MAX,
        b.subrange(
            HEADER_SIZE as int,
            HEADER_SIZE + payload_of(dedupe(rs)).len() as int,
        ) == payload_of(dedupe(rs)),
    ensures
        ({
            let tb = table_of(dedupe(rs), HEADER_SIZE as int);
            let k = find_loc(tb, d);
            &&& 0 <= k < tb.len()
            &&& tb[k].0 == d
            &&& tb[k].2 == dat.len() as u64
            &&& tb[k].1 + tb[k].2 <= b.len()
            &&& b.subrange(tb[k].1 as int, tb[k].1 + tb[k].2) == dat
        }),
{
    let ded = dedupe(rs);
    let tb = table_of(ded, HEADER_SIZE as int);
    let pl = payload_of(ded);
    lemma_table_len(ded, HEADER_SIZE as int);
    lemma_dedupe_complete(rs, j);
    let q = choose|q: int| 0 <= q < ded.len() && (#[trigger] ded[q]).0 == rs[j].0;
    lemma_dedupe_elem(rs, q);
    let j2 = choose|j2: int| 0 <= j2 < rs.len() && #[trigger] rs[j2] == ded[q];
    assert(rs[j2].0 == rs[j].0);
    assert(rs[j2].1 == dat);
    assert(ded[q] == (d, dat));
    lemma_dedupe_distinct(rs);
    lemma_table_row(ded, HEADER_SIZE as int, q);
    lemma_payload_at(ded, q);
    assert forall|p: int| 0 <= p < q implies (#[trigger] tb[p]).0 != d by {
        lemma_table_row(ded, HEADER_SIZE as int, p);
        assert(ded[p].0 != ded[q].0);
    }
    lemma_find_loc_at(tb, d, q);
    let x = payload_of(ded.take(q)).len() as int;
    assert(x + dat.len() <= pl.len());
    assert(tb[q].1 == (HEADER_SIZE + x) as u64);
    assert(HEADER_SIZE + x <= usize::MAX);
    assert(tb[q].1 == HEADER_SIZE + x);
    assert(tb[q].2 == dat.len() as u64);
    assert(dat.len() <= pl.len());
    assert(tb[q].2 == dat.len());
    assert(pl.subrange(x, x + dat.len() as int) == dat);
    assert(b.subrange(HEADER_SIZE + x, HEADER_SIZE + x + dat.len() as int) =~= pl.subrange(
        x,
        x + dat.len() as int,
    ));
}

/// Every file's chunk bytes concatenate back to the file's bytes.
pub open spec fn entry_chunks_concat(e: EntryV) -> bool
    decreases e,
{
    match e {
        EntryV::File { data, .. } => crate::chunker::chunk_records_of(data).map_values(
            |r: (Seq<u8>, Seq<u8>)| r.1,
        ).flatten() == data,
        EntryV::Directory { children, .. } => forall|i: int|
            0 <= i < children.len() ==> entry_chunks_concat(#[trigger] children[i]),
    }
}

/// The chunking facts `build_tree` establishes include the
/// concatenation law the round-trip theorem asks for.
pub proof fn lemma_fit_implies_concat(e: EntryV)
    requires
        crate::merkle::entry_chunks_fit(e),
    ensures
        entry_chunks_concat(e),
    decreases e,
{
    match e {
        EntryV::File { .. } => {},
        EntryV::Directory { children, .. } => {
            assert forall|i: int|
                0 <= i < children.len() implies entry_chunks_concat(#[trigger] children[i]) by {
                assert(decreases_to!(e => e->Directory_children));
                assert(decreases_to!(e->Directory_children => e->Directory_children[i]));
                lemma_fit_implies_concat(children[i]);
            }
        },
    }
}

/// Every element of a child's chunk records is an element of the
/// directory's.
proof fn lemma_chunks_children_contain(kids: Seq<EntryV>, k: int, x: (Seq<u8>, Seq<u8>))
    requires
        0 <= k < kids.len(),
        crate::merkle::spec_build_chunks(kids[k]).contains(x),
    ensures
        crate::merkle::spec_build_chunks_children(kids).contains(x),
    decreases kids.len(),
{
    if k == kids.len() - 1 {
        assert(kids.last() == kids[k]);
        let idx = choose|idx: int|
            0 <= idx < crate::merkle::spec_build_chunks(kids[k]).len()
                && crate::merkle::spec_build_chunks(kids[k])[idx] == x;
        let whole = crate::merkle::spec_build_chunks_children(kids);
        let preflen = crate::merkle::spec_build_chunks_children(kids.drop_last()).len() as int;
        assert(whole[preflen + idx] == x);
    } else {
        assert(kids.drop_last()[k] == kids[k]);
        lemma_chunks_children_contain(kids.drop_last(), k, x);
        let idx = choose|idx: int|
            0 <= idx < crate::merkle::spec_build_chunks_children(kids.drop_last()).len()
                && crate::merkle::spec_build_chunks_children(kids.drop_last())[idx] == x;
        let whole = crate::merkle::spec_build_chunks_children(kids);
        assert(whole[idx] == x);
    }
}

/// Reassembling a file's digests from the table yields the file's bytes.
proof fn lemma_assemble_file(
    data: Seq<u8>,
    rs: Seq<(Seq<u8>, Seq<u8>)>,
    b: Seq<u8>,
    m: int,
)
    requires
        records_collision_free(rs),
        forall|k: int|
            0 <= k < crate::chunker::chunk_records_of(data).len() ==> rs.contains(
                #[trigger] crate::chunker::chunk_records_of(data)[k],
            ),
        b.len() >= HEADER_SIZE + payload_of(dedupe(rs)).len(),
        payload_of(dedupe(rs)).len() + HEADER_SIZE <= usize::MAX,
        b.subrange(
            HEADER_SIZE as int,
            HEADER_SIZE + payload_of(dedupe(rs)).len() as int,
        ) == payload_of(dedupe(rs)),
        0 <= m <= crate::chunker::chunk_records_of(data).len(),
    ensures
        assemble_spans(
            crate::merkle::spec_chunk_digests(data).skip(m),
            table_of(dedupe(rs), HEADER_SIZE as int),
            b,
        ) == Ok::<Seq<u8>, ArchiveError>(
            crate::chunker::chunk_records_of(data).map_values(
                |r: (Seq<u8>, Seq<u8>)| r.1,
            ).skip(m).flatten(),
        ),
    decreases crate::chunker::chunk_records_of(data).len() - m,
{
    let recs = crate::chunker::chunk_records_of(data);
    let ds = crate::merkle::spec_chunk_digests(data);
    let pieces = recs.map_values(|r: (Seq<u8>, Seq<u8>)| r.1);
    let tb = table_of(dedupe(rs), HEADER_SIZE as int);
    if m == recs.len() {
        assert(ds.skip(m) =~= Seq::<Seq<u8>>::empty());
        assert(pieces.skip(m) =~= Seq::<Seq<u8>>::empty());
        assert(pieces.skip(m).flatten() =~= Seq::<u8>::empty());
    } else {
        assert(rs.contains(recs[m]));
        let j = choose|j: int| 0 <= j < rs.len() && rs[j] == recs[m];
        assert(recs[m] == (recs[m].0, recs[m].1));
        lemma_table_lookup(rs, b, recs[m].0, recs[m].1, j);
        let tail = ds.skip(m);
        assert(tail.first() == ds[m]);
        assert(ds[m] == recs[m].0);
        assert(tail.drop_first() =~= ds.skip(m + 1));
        let k = find_loc(tb, recs[m].0);
        lemma_assemble_file(data, rs, b, m + 1);
        assert(pieces.skip(m).first() == pieces[m]);
        assert(pieces.skip(m).drop_first() =~= pieces.skip(m + 1));
        assert(pieces.skip(m).flatten() == pieces[m] + pieces.skip(m + 1).flatten());
        assert(b.subrange(tb[k].1 as int, tb[k].1 + tb[k].2) == recs[m].1);
        assert(pieces[m] == recs[m].1);
    }
}

/// Rebuilding the built tree of an entry from the archive yields the
/// entry.
proof fn lemma_rebuild_entry(e: EntryV, rs: Seq<(Seq<u8>, Seq<u8>)>, b: Seq<u8>)
    requires
        entry_chunks_concat(e),
        records_collision_free(rs),
        forall|k: int|
            0 <= k < crate::merkle::spec_build_chunks(e).len() ==> rs.contains(
                #[trigger] crate::merkle::spec_build_chunks(e)[k],
            ),
        b.len() >= HEADER_SIZE + payload_of(dedupe(rs)).len(),
        payload_of(dedupe(rs)).len() + HEADER_SIZE <= usize::MAX,
        b.subrange(
            HEADER_SIZE as int,
            HEADER_SIZE + payload_of(dedupe(rs)).len() as int,
        ) == payload_of(dedupe(rs)),
    ensures
        spec_rebuild(crate::merkle::spec_build(e), table_of(dedupe(rs), HEADER_SIZE as int), b)
            == Ok::<EntryV, ArchiveError>(e),
    decreases e, 0nat,
{
    let tb = table_of(dedupe(rs), HEADER_SIZE as int);
    match e {
        EntryV::File { name, permissions, size, data } => {
            assert(crate::merkle::spec_build_chunks(e) == crate::chunker::chunk_records_of(data));
            lemma_assemble_file(data, rs, b, 0);
            let ds = crate::merkle::spec_chunk_digests(data);
            let pieces = crate::chunker::chunk_records_of(data).map_values(
                |r: (Seq<u8>, Seq<u8>)| r.1,
            );
            assert(ds.skip(0) =~= ds);
            assert(pieces.skip(0) =~= pieces);
            assert(pieces.flatten() == data);
            assert(assemble_spans(ds, tb, b) == Ok::<Seq<u8>, ArchiveError>(data));
        },
        EntryV::Directory { name, permissions, children } => {
            assert forall|k: int, idx: int|
                0 <= k < children.len() && 0 <= idx < crate::merkle::spec_build_chunks(
                    children[k],
                ).len() implies rs.contains(
                #[trigger] crate::merkle::spec_build_chunks(children[k])[idx],
            ) by {
                lemma_chunks_children_contain(
                    children,
                    k,
                    crate::merkle::spec_build_chunks(children[k])[idx],
                );
                let x = crate::merkle::spec_build_chunks(children[k])[idx];
                let w = choose|w: int|
                    0 <= w < crate::merkle::spec_build_chunks_children(children).len()
                        && crate::merkle::spec_build_chunks_children(children)[w] == x;
                assert(crate::merkle::spec_build_chunks(e)[w] == x);
            }
            lemma_rebuild_children(children, rs, b);
            crate::merkle::lemma_spec_build_children(children);
        },
    }
}

/// Rebuilding the built children of a directory yields them.
proof fn lemma_rebuild_children(kids: Seq<EntryV>, rs: Seq<(Seq<u8>, Seq<u8>)>, b: Seq<u8>)
    requires
        forall|i: int| 0 <= i < kids.len() ==> entry_chunks_concat(#[trigger] kids[i]),
        records_collision_free(rs),
        forall|k: int, idx: int|
            0 <= k < kids.len() && 0 <= idx < crate::merkle::spec_build_chunks(kids[k]).len()
                ==> rs.contains(#[trigger] crate::merkle::spec_build_chunks(kids[k])[idx]),
        b.len() >= HEADER_SIZE + payload_of(dedupe(rs)).len(),
        payload_of(dedupe(rs)).len() + HEADER_SIZE <= usize::MAX,
        b.subrange(
            HEADER_SIZE as int,
            HEADER_SIZE + payload_of(dedupe(rs)).len() as int,
        ) == payload_of(dedupe(rs)),
    ensures
        spec_rebuild_children(
            crate::merkle::spec_build_children(kids),
            table_of(dedupe(rs), HEADER_SIZE as int),
            b,
        ) == Ok::<Seq<EntryV>, ArchiveError>(kids),
    decreases kids, 1nat,
{
    let tb = table_of(dedupe(rs), HEADER_SIZE as int);
    let cs = crate::merkle::spec_build_children(kids);
    crate::merkle::lemma_spec_build_children(kids);
    if kids.len() == 0 {
        assert(cs =~= Seq::<NodeV>::empty());
        assert(kids =~= Seq::<EntryV>::empty());
    } else {
        assert(cs.first() == crate::merkle::spec_build(kids[0]));
        lemma_rebuild_entry(kids[0], rs, b);
        let rest = kids.drop_first();
        assert(forall|i: int| 0 <= i < rest.len() ==> #[trigger] rest[i] == kids[i + 1]);
        crate::merkle::lemma_spec_build_children(rest);
        assert(cs.drop_first() =~= crate::merkle::spec_build_children(rest));
        lemma_rebuild_children(rest, rs, b);
        assert(seq![kids[0]] + rest =~= kids);
    }
}


/// Archiving a built tree and extracting it yields the scanned entry it
/// was built from: file bytes, names and permissions all preserved.
///
/// This holds whenever the entry's chunk records concatenate back to its
/// file bytes (`build_tree` ensures `entry_chunks_fit`, which implies it
/// by `lemma_fit_implies_concat`), the built tree's digests have their
/// usual widths (`attest_node_sizes` walks any held tree to establish
/// them), no two distinct chunk payloads collide on one BLAKE3 digest,
/// and the archive fits in memory.
#[verifier::rlimit(100)]
pub proof fn lemma_archive_round_trip(e: EntryV)
    requires
        entry_chunks_concat(e),
        crate::codec::node_sizes_ok(crate::merkle::spec_build(e)),
        records_digests_wide(crate::merkle::spec_build_chunks(e)),
        records_collision_free(crate::merkle::spec_build_chunks(e)),
        archive_fits(crate::merkle::spec_build(e), crate::merkle::spec_build_chunks(e)),
    ensures
        spec_extract(
            spec_archive_bytes(crate::merkle::spec_build(e), crate::merkle::spec_build_chunks(e)),
        ) == Ok::<EntryV, ArchiveError>(e),
{
    let t = crate::merkle::spec_build(e);
    let rs = crate::merkle::spec_build_chunks(e);
    let ded = dedupe(rs);
    let pl = payload_of(ded);
    let tb = table_of(ded, HEADER_SIZE as int);
    let idx = spec_enc_index(t, tb);
    let b = spec_archive_bytes(t, rs);
    let off = HEADER_SIZE + pl.len() as int;
    assert(b.len() == HEADER_SIZE + pl.len() + idx.len());
    assert(b.subrange(0, 8) =~= spec_magic());
    assert(b[8] == VERSION);
    assert(b.subrange(9, 17) =~= le_u64((HEADER_SIZE + pl.len()) as u64));
    crate::codec::lemma_u64_round_trip((HEADER_SIZE + pl.len()) as u64, b, 9);
    assert(b.subrange(17, 25) =~= le_u64(idx.len() as u64));
    crate::codec::lemma_u64_round_trip(idx.len() as u64, b, 17);
    assert(b.subrange(off, off + idx.len() as int) =~= idx);
    lemma_table_len(ded, HEADER_SIZE as int);
    assert forall|i: int| 0 <= i < tb.len() implies (#[trigger] tb[i]).0.len() == 32 by {
        lemma_table_row(ded, HEADER_SIZE as int, i);
        lemma_dedupe_elem(rs, i);
        let j = choose|j: int| 0 <= j < rs.len() && #[trigger] rs[j] == ded[i];
        assert(rs[j].0.len() == 32);
    }
    lemma_enc_locs_len(tb);
    let nl = spec_enc_node(t).len() as int;
    let o2 = off + nl;
    let o3 = o2 + 8;
    assert(idx.subrange(0, nl) =~= spec_enc_node(t));
    assert(b.subrange(off, o2) =~= idx.subrange(0, nl));
    crate::codec::lemma_node_round_trip(t, b, off);
    assert(idx.subrange(nl, nl + 8) =~= le_u64(tb.len() as u64));
    assert(b.subrange(o2, o3) =~= idx.subrange(nl, nl + 8));
    crate::codec::lemma_u64_round_trip(tb.len() as u64, b, o2);
    assert(idx.subrange(nl + 8, nl + 8 + 48 * tb.len() as int) =~= enc_locs(tb));
    assert(b.subrange(o3, o3 + 48 * tb.len() as int) =~= idx.subrange(
        nl + 8,
        nl + 8 + 48 * tb.len() as int,
    ));
    lemma_locs_round_trip(tb, b, o3);
    assert(spec_dec_index(b, off) == Some(((t, tb), o3 + 48 * tb.len() as int)));
    assert(b.subrange(HEADER_SIZE as int, HEADER_SIZE + pl.len() as int) =~= pl);
    assert(forall|k: int| 0 <= k < rs.len() ==> rs.contains(#[trigger] rs[k]));
    lemma_rebuild_entry(e, rs, b);
    assert(spec_extract(b) == Ok::<EntryV, ArchiveError>(e));
}

} // verus!
