//! The compact binary encoding shared by the archive index and the wire
//! messages: little-endian integers, length-prefixed byte strings, tagged
//! variants. Decoding is proved to invert encoding.

use vstd::prelude::*;
use vstd::slice::{slice_index_get, slice_subrange, slice_to_vec};
use vstd::utf8::{decode_utf8, encode_utf8, valid_utf8};

use crate::hashing::Digest;
use crate::merkle::{node_views, Node, NodeV};
use crate::protocol::{
    ClientMessage, ClientMessageV, ServerMessage, ServerMessageV,
};

verus! {

broadcast use vstd::utf8::encode_utf8_valid_utf8, vstd::utf8::encode_utf8_decode_utf8;

/// The eight bytes of a 64-bit value, least significant first.
pub open spec fn le_u64(x: u64) -> Seq<u8> {
    seq![
        (x & 0xff) as u8,
        ((x >> 8) & 0xff) as u8,
        ((x >> 16) & 0xff) as u8,
        ((x >> 24) & 0xff) as u8,
        ((x >> 32) & 0xff) as u8,
        ((x >> 40) & 0xff) as u8,
        ((x >> 48) & 0xff) as u8,
        ((x >> 56) & 0xff) as u8,
    ]
}

/// The 64-bit value eight bytes hold, least significant first.
pub open spec fn u64_of_bytes(b: Seq<u8>, pos: int) -> u64 {
    ((b[pos] as u64) | ((b[pos + 1] as u64) << 8) | ((b[pos + 2] as u64) << 16) | ((b[pos + 3] as u64)
        << 24) | ((b[pos + 4] as u64) << 32) | ((b[pos + 5] as u64) << 40) | ((b[pos + 6] as u64)
        << 48) | ((b[pos + 7] as u64) << 56)) as u64
}

/// Reading eight bytes.
pub open spec fn dec_u64(b: Seq<u8>, pos: int) -> Option<(u64, int)> {
    if 0 <= pos && pos + 8 <= b.len() {
        Some((u64_of_bytes(b, pos), pos + 8))
    } else {
        None
    }
}

/// Reading the eight bytes a value was written as yields the value.
pub proof fn lemma_u64_round_trip(x: u64, b: Seq<u8>, pos: int)
    requires
        0 <= pos,
        pos + 8 <= b.len(),
        b.subrange(pos, pos + 8) == le_u64(x),
    ensures
        dec_u64(b, pos) == Some((x, pos + 8)),
{
    assert(b[pos] == le_u64(x)[0]);
    assert(b[pos + 1] == le_u64(x)[1]);
    assert(b[pos + 2] == le_u64(x)[2]);
    assert(b[pos + 3] == le_u64(x)[3]);
    assert(b[pos + 4] == le_u64(x)[4]);
    assert(b[pos + 5] == le_u64(x)[5]);
    assert(b[pos + 6] == le_u64(x)[6]);
    assert(b[pos + 7] == le_u64(x)[7]);
    assert((((x & 0xff) as u8 as u64) | (((x >> 8) & 0xff) as u8 as u64) << 8 | (((x >> 16)
        & 0xff) as u8 as u64) << 16 | (((x >> 24) & 0xff) as u8 as u64) << 24 | (((x >> 32)
        & 0xff) as u8 as u64) << 32 | (((x >> 40) & 0xff) as u8 as u64) << 40 | (((x >> 48)
        & 0xff) as u8 as u64) << 48 | (((x >> 56) & 0xff) as u8 as u64) << 56) == x)
        by (bit_vector);
}

/// Append the eight little-endian bytes of a value.
pub fn enc_u64(out: &mut Vec<u8>, x: u64)
    ensures
        final(out)@ == old(out)@ + le_u64(x),
{
    out.push((x & 0xff) as u8);
    out.push(((x >> 8) & 0xff) as u8);
    out.push(((x >> 16) & 0xff) as u8);
    out.push(((x >> 24) & 0xff) as u8);
    out.push(((x >> 32) & 0xff) as u8);
    out.push(((x >> 40) & 0xff) as u8);
    out.push(((x >> 48) & 0xff) as u8);
    out.push(((x >> 56) & 0xff) as u8);
    proof {
        assert(out@ =~= old(out)@ + le_u64(x));
    }
}

/// Read a 64-bit value.
pub fn read_u64(bytes: &[u8], pos: usize) -> (r: Option<(u64, usize)>)
    ensures
        ({
            match dec_u64(bytes@, pos as int) {
                Some((x, end)) => r matches Some(p) && p.0 == x && p.1 == end,
                None => r is None,
            }
        }),
{
    if bytes.len() < 8 || pos > bytes.len() - 8 {
        return None;
    }
    let b0 = *slice_index_get(bytes, pos) as u64;
    let b1 = *slice_index_get(bytes, pos + 1) as u64;
    let b2 = *slice_index_get(bytes, pos + 2) as u64;
    let b3 = *slice_index_get(bytes, pos + 3) as u64;
    let b4 = *slice_index_get(bytes, pos + 4) as u64;
    let b5 = *slice_index_get(bytes, pos + 5) as u64;
    let b6 = *slice_index_get(bytes, pos + 6) as u64;
    let b7 = *slice_index_get(bytes, pos + 7) as u64;
    let x = b0 | (b1 << 8) | (b2 << 16) | (b3 << 24) | (b4 << 32) | (b5 << 40) | (b6 << 48) | (b7
        << 56);
    Some((x, pos + 8))
}

/// The four bytes of a 32-bit value, least significant first, as the
/// tree's directory digests already use.
pub open spec fn le_u32(x: u32) -> Seq<u8> {
    crate::merkle::le32(x)
}

/// Reading four bytes.
pub open spec fn dec_u32(b: Seq<u8>, pos: int) -> Option<(u32, int)> {
    if 0 <= pos && pos + 4 <= b.len() {
        Some(
            (
                ((b[pos] as u32) | ((b[pos + 1] as u32) << 8) | ((b[pos + 2] as u32) << 16) | ((b[pos
                    + 3] as u32) << 24)) as u32,
                pos + 4,
            ),
        )
    } else {
        None
    }
}

/// Reading the four bytes a value was written as yields the value.
pub proof fn lemma_u32_round_trip(x: u32, b: Seq<u8>, pos: int)
    requires
        0 <= pos,
        pos + 4 <= b.len(),
        b.subrange(pos, pos + 4) == le_u32(x),
    ensures
        dec_u32(b, pos) == Some((x, pos + 4)),
{
    assert(b[pos] == le_u32(x)[0]);
    assert(b[pos + 1] == le_u32(x)[1]);
    assert(b[pos + 2] == le_u32(x)[2]);
    assert(b[pos + 3] == le_u32(x)[3]);
    assert((((x & 0xff) as u8 as u32) | (((x >> 8) & 0xff) as u8 as u32) << 8 | (((x >> 16)
        & 0xff) as u8 as u32) << 16 | (((x >> 24) & 0xff) as u8 as u32) << 24) == x)
        by (bit_vector);
}

/// Append the four little-endian bytes of a 32-bit value.
pub fn enc_u32(out: &mut Vec<u8>, x: u32)
    ensures
        final(out)@ == old(out)@ + le_u32(x),
{
    out.push((x & 0xff) as u8);
    out.push(((x >> 8) & 0xff) as u8);
    out.push(((x >> 16) & 0xff) as u8);
    out.push(((x >> 24) & 0xff) as u8);
    proof {
        assert(out@ =~= old(out)@ + le_u32(x));
    }
}

/// Read a 32-bit value.
pub fn read_u32(bytes: &[u8], pos: usize) -> (r: Option<(u32, usize)>)
    ensures
        ({
            match dec_u32(bytes@, pos as int) {
                Some((x, end)) => r matches Some(p) && p.0 == x && p.1 == end,
                None => r is None,
            }
        }),
{
    if bytes.len() < 4 || pos > bytes.len() - 4 {
        return None;
    }
    let b0 = *slice_index_get(bytes, pos) as u32;
    let b1 = *slice_index_get(bytes, pos + 1) as u32;
    let b2 = *slice_index_get(bytes, pos + 2) as u32;
    let b3 = *slice_index_get(bytes, pos + 3) as u32;
    Some((b0 | (b1 << 8) | (b2 << 16) | (b3 << 24), pos + 4))
}

/// A length-prefixed byte string.
pub open spec fn enc_bytes(b: Seq<u8>) -> Seq<u8> {
    le_u64(b.len() as u64) + b
}

/// Reading a length-prefixed byte string.
pub open spec fn dec_bytes(b: Seq<u8>, pos: int) -> Option<(Seq<u8>, int)> {
    match dec_u64(b, pos) {
        None => None,
        Some((n, p)) => {
            if p + n <= b.len() {
                Some((b.subrange(p, p + n as int), p + n as int))
            } else {
                None
            }
        },
    }
}

/// Reading a byte string written whole yields it.
pub proof fn lemma_bytes_round_trip(v: Seq<u8>, b: Seq<u8>, pos: int)
    requires
        0 <= pos,
        pos + 8 + v.len() <= b.len(),
        v.len() <= u64::MAX,
        b.subrange(pos, pos + 8 + v.len() as int) == enc_bytes(v),
    ensures
        dec_bytes(b, pos) == Some((v, pos + 8 + v.len() as int)),
{
    let whole = b.subrange(pos, pos + 8 + v.len() as int);
    assert(whole.subrange(0, 8) =~= b.subrange(pos, pos + 8));
    assert(enc_bytes(v).subrange(0, 8) =~= le_u64(v.len() as u64));
    lemma_u64_round_trip(v.len() as u64, b, pos);
    assert(b.subrange(pos + 8, pos + 8 + v.len() as int) =~= whole.subrange(
        8,
        8 + v.len() as int,
    ));
    assert(enc_bytes(v).subrange(8, 8 + v.len() as int) =~= v);
}

/// Append a length-prefixed byte string.
pub fn enc_bytes_vec(out: &mut Vec<u8>, v: &[u8])
    ensures
        final(out)@ == old(out)@ + enc_bytes(v@),
{
    let n = v.len();
    enc_u64(out, n as u64);
    let ghost mid = out@;
    let mut i: usize = 0;
    while i < n
        invariant
            n == v@.len(),
            0 <= i <= n,
            out@ =~= mid + v@.take(i as int),
        decreases n - i,
    {
        out.push(*slice_index_get(v, i));
        proof {
            assert(out@ =~= mid + v@.take(i as int + 1));
        }
        i += 1;
    }
    proof {
        assert(v@.take(n as int) =~= v@);
        assert(out@ =~= old(out)@ + enc_bytes(v@));
    }
}

/// Read a length-prefixed byte string.
pub fn read_bytes(bytes: &[u8], pos: usize) -> (r: Option<(Vec<u8>, usize)>)
    ensures
        ({
            match dec_bytes(bytes@, pos as int) {
                Some((v, end)) => r matches Some(p) && p.0@ == v && p.1 == end,
                None => r is None,
            }
        }),
{
    let n_pos = read_u64(bytes, pos);
    let (n, p) = match n_pos {
        Some(x) => x,
        None => {
            return None;
        },
    };
    if n > (bytes.len() - p) as u64 {
        return None;
    }
    let n = n as usize;
    let piece = slice_subrange(bytes, p, p + n);
    Some((slice_to_vec(piece), p + n))
}

/// A length-prefixed string: its UTF-8 bytes.
pub open spec fn enc_str(s: Seq<char>) -> Seq<u8> {
    enc_bytes(encode_utf8(s))
}

/// Reading a length-prefixed string: the bytes must be valid UTF-8.
pub open spec fn dec_str(b: Seq<u8>, pos: int) -> Option<(Seq<char>, int)> {
    match dec_bytes(b, pos) {
        None => None,
        Some((v, end)) => {
            if valid_utf8(v) {
                Some((decode_utf8(v), end))
            } else {
                None
            }
        },
    }
}

/// Reading a string written whole yields it.
pub proof fn lemma_str_round_trip(s: Seq<char>, b: Seq<u8>, pos: int)
    requires
        0 <= pos,
        pos + 8 + encode_utf8(s).len() <= b.len(),
        encode_utf8(s).len() <= u64::MAX,
        b.subrange(pos, pos + 8 + encode_utf8(s).len() as int) == enc_str(s),
    ensures
        dec_str(b, pos) == Some((s, pos + 8 + encode_utf8(s).len() as int)),
{
    lemma_bytes_round_trip(encode_utf8(s), b, pos);
}

/// The standard library's error for bytes that are not UTF-8.
#[verifier::external_type_specification]
#[verifier::external_body]
pub struct ExFromUtf8Error(std::string::FromUtf8Error);

/// Relies on String::from_utf8: it succeeds exactly on valid UTF-8, and
/// the returned string holds exactly the given bytes.
pub assume_specification[ String::from_utf8 ](v: Vec<u8>) -> (r: Result<
    String,
    std::string::FromUtf8Error,
>)
    ensures
        r is Ok <==> valid_utf8(v@),
        r matches Ok(s) ==> encode_utf8(s@) == v@,
;

/// Append a length-prefixed string.
pub fn enc_string(out: &mut Vec<u8>, s: &str)
    ensures
        final(out)@ == old(out)@ + enc_str(s@),
{
    let bytes = s.as_bytes_vec();
    enc_bytes_vec(out, bytes.as_slice());
}

/// Read a length-prefixed string.
pub fn read_string(bytes: &[u8], pos: usize) -> (r: Option<(String, usize)>)
    ensures
        ({
            match dec_str(bytes@, pos as int) {
                Some((s, end)) => r matches Some(p) && p.0@ == s && p.1 == end,
                None => r is None,
            }
        }),
{
    let got = read_bytes(bytes, pos);
    let (v, end) = match got {
        Some(x) => x,
        None => {
            return None;
        },
    };
    match String::from_utf8(v) {
        Ok(s) => {
            proof {
                let bv = dec_bytes(bytes@, pos as int).unwrap().0;
                assert(decode_utf8(encode_utf8(s@)) == s@);
            }
            Some((s, end))
        },
        Err(_) => None,
    }
}

/// A digest: its 32 bytes, raw.
pub open spec fn enc_digest(d: Seq<u8>) -> Seq<u8> {
    d
}

/// Reading 32 raw bytes.
pub open spec fn dec_digest(b: Seq<u8>, pos: int) -> Option<(Seq<u8>, int)> {
    if 0 <= pos && pos + 32 <= b.len() {
        Some((b.subrange(pos, pos + 32), pos + 32))
    } else {
        None
    }
}

/// Append a digest's 32 bytes.
pub fn enc_digest_vec(out: &mut Vec<u8>, d: &Digest)
    ensures
        final(out)@ == old(out)@ + d@,
{
    crate::merkle::push_digest_bytes(out, d);
}

/// Read 32 raw bytes as a digest.
pub fn read_digest(bytes: &[u8], pos: usize) -> (r: Option<(Digest, usize)>)
    ensures
        ({
            match dec_digest(bytes@, pos as int) {
                Some((d, end)) => r matches Some(p) && p.0@ == d && p.1 == end,
                None => r is None,
            }
        }),
{
    if bytes.len() < 32 || pos > bytes.len() - 32 {
        return None;
    }
    let mut d: Digest = [0u8; 32];
    let mut i: usize = 0;
    while i < 32
        invariant
            pos + 32 <= bytes@.len(),
            pos + 32 <= usize::MAX,
            0 <= i <= 32,
            d@.len() == 32,
            forall|k: int| 0 <= k < i ==> d@[k] == bytes@[pos + k],
        decreases 32 - i,
    {
        d[i] = *slice_index_get(bytes, pos + i);
        i += 1;
    }
    proof {
        assert(d@ =~= bytes@.subrange(pos as int, pos + 32));
    }
    Some((d, pos + 32))
}


/// A run of digests, raw, back to back.
pub open spec fn enc_digests(ds: Seq<Seq<u8>>) -> Seq<u8>
    decreases ds.len(),
{
    if ds.len() == 0 {
        Seq::empty()
    } else {
        ds.first() + enc_digests(ds.drop_first())
    }
}

/// Reading a run of `cnt` digests.
pub open spec fn dec_digests(b: Seq<u8>, pos: int, cnt: int) -> Option<(Seq<Seq<u8>>, int)>
    decreases cnt,
{
    if cnt <= 0 {
        Some((Seq::empty(), pos))
    } else {
        match dec_digest(b, pos) {
            None => None,
            Some((d, p)) => match dec_digests(b, p, cnt - 1) {
                None => None,
                Some((rest, end)) => Some((seq![d] + rest, end)),
            },
        }
    }
}

/// Digests written back to back occupy 32 bytes each.
pub proof fn lemma_enc_digests_len(ds: Seq<Seq<u8>>)
    requires
        forall|i: int| 0 <= i < ds.len() ==> (#[trigger] ds[i]).len() == 32,
    ensures
        enc_digests(ds).len() == 32 * ds.len(),
    decreases ds.len(),
{
    if ds.len() > 0 {
        assert(ds.first().len() == 32);
        assert(forall|i: int|
            0 <= i < ds.drop_first().len() ==> (#[trigger] ds.drop_first()[i]) == ds[i + 1]);
        lemma_enc_digests_len(ds.drop_first());
    }
}

/// Reading back a run of digests written whole yields them.
pub proof fn lemma_digests_round_trip(ds: Seq<Seq<u8>>, b: Seq<u8>, pos: int)
    requires
        forall|i: int| 0 <= i < ds.len() ==> (#[trigger] ds[i]).len() == 32,
        0 <= pos,
        pos + 32 * ds.len() <= b.len(),
        b.subrange(pos, pos + 32 * ds.len()) == enc_digests(ds),
    ensures
        dec_digests(b, pos, ds.len() as int) == Some((ds, pos + 32 * ds.len())),
    decreases ds.len(),
{
    lemma_enc_digests_len(ds);
    if ds.len() > 0 {
        let whole = b.subrange(pos, pos + 32 * ds.len());
        let rest = ds.drop_first();
        assert(forall|i: int| 0 <= i < rest.len() ==> (#[trigger] rest[i]) == ds[i + 1]);
        lemma_enc_digests_len(rest);
        assert(b.subrange(pos, pos + 32) =~= whole.subrange(0, 32));
        assert(whole.subrange(0, 32) =~= ds.first());
        assert(dec_digest(b, pos) == Some((ds.first(), pos + 32)));
        assert(b.subrange(pos + 32, pos + 32 + 32 * rest.len()) =~= whole.subrange(
            32,
            32 + 32 * rest.len() as int,
        ));
        assert(whole.subrange(32, 32 + 32 * rest.len() as int) =~= enc_digests(rest));
        lemma_digests_round_trip(rest, b, pos + 32);
        assert(seq![ds.first()] + rest =~= ds);
        assert(pos + 32 + 32 * rest.len() == pos + 32 * ds.len());
    } else {
        assert(dec_digests(b, pos, 0) == Some((Seq::<Seq<u8>>::empty(), pos)));
        assert(ds =~= Seq::<Seq<u8>>::empty());
    }
}

/// Reading one byte.
pub open spec fn dec_tag(b: Seq<u8>, pos: int) -> Option<(u8, int)> {
    if 0 <= pos && pos + 1 <= b.len() {
        Some((b[pos], pos + 1))
    } else {
        None
    }
}

/// The encoding of a node: a tag byte, the name, the permissions, then
/// for a file its size, chunk count, chunk digests and digest, and for a
/// directory its child count, encoded children and digest.
pub open spec fn spec_enc_node(n: NodeV) -> Seq<u8>
    decreases n,
{
    match n {
        NodeV::File { name, permissions, size, chunks, hash } => seq![0u8] + enc_str(name)
            + le_u32(permissions) + le_u64(size) + le_u64(chunks.len() as u64) + enc_digests(chunks)
            + hash,
        NodeV::Directory { name, permissions, children, hash } => seq![1u8] + enc_str(name)
            + le_u32(permissions) + le_u64(children.len() as u64) + spec_enc_nodes(children) + hash,
    }
}

pub open spec fn spec_enc_nodes(s: Seq<NodeV>) -> Seq<u8>
    decreases s,
{
    if s.len() == 0 {
        Seq::empty()
    } else {
        spec_enc_node(s.first()) + spec_enc_nodes(s.drop_first())
    }
}

/// The counts and digest widths a node must keep for its encoding to be
/// readable: every digest 32 bytes, every count and length within 64
/// bits.
pub open spec fn node_sizes_ok(n: NodeV) -> bool
    decreases n,
{
    match n {
        NodeV::File { name, chunks, hash, .. } => {
            &&& encode_utf8(name).len() <= u64::MAX
            &&& chunks.len() <= u64::MAX
            &&& hash.len() == 32
            &&& forall|i: int| 0 <= i < chunks.len() ==> (#[trigger] chunks[i]).len() == 32
        },
        NodeV::Directory { name, children, hash, .. } => {
            &&& encode_utf8(name).len() <= u64::MAX
            &&& children.len() <= u64::MAX
            &&& hash.len() == 32
            &&& forall|i: int| 0 <= i < children.len() ==> node_sizes_ok(#[trigger] children[i])
        },
    }
}

/// Reading one encoded node.
pub open spec fn spec_dec_node(b: Seq<u8>, pos: int) -> Option<(NodeV, int)>
    decreases b.len() - pos, 0nat, 0nat,
    when 0 <= pos <= b.len()
{
    match dec_tag(b, pos) {
        None => None,
        Some((tag, p1)) => {
            if tag == 0 {
                match dec_str(b, p1) {
                    None => None,
                    Some((name, p2)) => match dec_u32(b, p2) {
                        None => None,
                        Some((permissions, p3)) => match dec_u64(b, p3) {
                            None => None,
                            Some((size, p4)) => match dec_u64(b, p4) {
                                None => None,
                                Some((cnt, p5)) => match dec_digests(b, p5, cnt as int) {
                                    None => None,
                                    Some((chunks, p6)) => match dec_digest(b, p6) {
                                        None => None,
                                        Some((hash, p7)) => Some(
                                            (
                                                NodeV::File {
                                                    name,
                                                    permissions,
                                                    size,
                                                    chunks,
                                                    hash,
                                                },
                                                p7,
                                            ),
                                        ),
                                    },
                                },
                            },
                        },
                    },
                }
            } else if tag == 1 {
                match dec_str(b, p1) {
                    None => None,
                    Some((name, p2)) => match dec_u32(b, p2) {
                        None => None,
                        Some((permissions, p3)) => match dec_u64(b, p3) {
                            None => None,
                            Some((cnt, p4)) => match spec_dec_nodes(b, p4, cnt as int) {
                                None => None,
                                Some((children, p5)) => match dec_digest(b, p5) {
                                    None => None,
                                    Some((hash, p6)) => Some(
                                        (
                                            NodeV::Directory { name, permissions, children, hash },
                                            p6,
                                        ),
                                    ),
                                },
                            },
                        },
                    },
                }
            } else {
                None
            }
        },
    }
}

/// Reading a run of `cnt` encoded nodes.
pub open spec fn spec_dec_nodes(b: Seq<u8>, pos: int, cnt: int) -> Option<(Seq<NodeV>, int)>
    decreases b.len() - pos, 1nat, cnt,
    when 0 <= pos <= b.len()
{
    if cnt <= 0 {
        Some((Seq::empty(), pos))
    } else {
        match spec_dec_node(b, pos) {
            None => None,
            Some((n, p)) => {
                if pos < p <= b.len() {
                    match spec_dec_nodes(b, p, cnt - 1) {
                        None => None,
                        Some((rest, end)) => Some((seq![n] + rest, end)),
                    }
                } else {
                    None
                }
            },
        }
    }
}


/// Writing two runs of digests one after the other writes their
/// concatenation.
pub proof fn lemma_enc_digests_concat(a: Seq<Seq<u8>>, c: Seq<Seq<u8>>)
    ensures
        enc_digests(a + c) == enc_digests(a) + enc_digests(c),
    decreases a.len(),
{
    if a.len() == 0 {
        assert(a + c =~= c);
        assert(enc_digests(a) + enc_digests(c) =~= enc_digests(c));
    } else {
        assert((a + c).first() == a.first());
        assert((a + c).drop_first() =~= a.drop_first() + c);
        lemma_enc_digests_concat(a.drop_first(), c);
        assert(enc_digests(a + c) =~= enc_digests(a) + enc_digests(c));
    }
}

/// Writing two runs of nodes one after the other writes their
/// concatenation.
pub proof fn lemma_enc_nodes_concat(a: Seq<NodeV>, c: Seq<NodeV>)
    ensures
        spec_enc_nodes(a + c) == spec_enc_nodes(a) + spec_enc_nodes(c),
    decreases a.len(),
{
    if a.len() == 0 {
        assert(a + c =~= c);
        assert(spec_enc_nodes(a) + spec_enc_nodes(c) =~= spec_enc_nodes(c));
    } else {
        assert((a + c).first() == a.first());
        assert((a + c).drop_first() =~= a.drop_first() + c);
        lemma_enc_nodes_concat(a.drop_first(), c);
        assert(spec_enc_nodes(a + c) =~= spec_enc_nodes(a) + spec_enc_nodes(c));
    }
}

/// Reading back a node written whole yields it.
#[verifier::rlimit(60)]
pub proof fn lemma_node_round_trip(n: NodeV, b: Seq<u8>, pos: int)
    requires
        node_sizes_ok(n),
        0 <= pos,
        pos + spec_enc_node(n).len() <= b.len(),
        b.subrange(pos, pos + spec_enc_node(n).len() as int) == spec_enc_node(n),
    ensures
        spec_dec_node(b, pos) == Some((n, pos + spec_enc_node(n).len() as int)),
    decreases n,
{
    let e = spec_enc_node(n);
    let whole = b.subrange(pos, pos + e.len() as int);
    assert(forall|k: int| 0 <= k < e.len() ==> b[pos + k] == #[trigger] e[k]);
    match n {
        NodeV::File { name, permissions, size, chunks, hash } => {
            let nb = encode_utf8(name);
            lemma_enc_digests_len(chunks);
            let o1 = pos + 1;
            let o2 = o1 + 8 + nb.len() as int;
            let o3 = o2 + 4;
            let o4 = o3 + 8;
            let o5 = o4 + 8;
            let o6 = o5 + 32 * chunks.len() as int;
            let endp = o6 + 32;
            assert(e.len() == 1 + (8 + nb.len()) + 4 + 8 + 8 + 32 * chunks.len() + 32);
            assert(e[0] == 0u8);
            assert(b[pos] == 0u8);
            assert(dec_tag(b, pos) == Some((0u8, o1)));
            assert(b.subrange(o1, o2) =~= e.subrange(1, (1 + 8 + nb.len()) as int));
            assert(e.subrange(1, (1 + 8 + nb.len()) as int) =~= enc_str(name));
            lemma_str_round_trip(name, b, o1);
            assert(b.subrange(o2, o3) =~= e.subrange(o2 - pos, o3 - pos));
            assert(e.subrange(o2 - pos, o3 - pos) =~= le_u32(permissions));
            lemma_u32_round_trip(permissions, b, o2);
            assert(b.subrange(o3, o4) =~= e.subrange(o3 - pos, o4 - pos));
            assert(e.subrange(o3 - pos, o4 - pos) =~= le_u64(size));
            lemma_u64_round_trip(size, b, o3);
            assert(b.subrange(o4, o5) =~= e.subrange(o4 - pos, o5 - pos));
            assert(e.subrange(o4 - pos, o5 - pos) =~= le_u64(chunks.len() as u64));
            lemma_u64_round_trip(chunks.len() as u64, b, o4);
            assert(b.subrange(o5, o6) =~= e.subrange(o5 - pos, o6 - pos));
            assert(e.subrange(o5 - pos, o6 - pos) =~= enc_digests(chunks));
            lemma_digests_round_trip(chunks, b, o5);
            assert(b.subrange(o6, endp) =~= e.subrange(o6 - pos, endp - pos));
            assert(e.subrange(o6 - pos, endp - pos) =~= hash);
            assert(dec_digest(b, o6) == Some((hash, endp)));
            assert(spec_dec_node(b, pos) == Some((n, endp)));
        },
        NodeV::Directory { name, permissions, children, hash } => {
            let nb = encode_utf8(name);
            let cl = spec_enc_nodes(children).len() as int;
            let o1 = pos + 1;
            let o2 = o1 + 8 + nb.len() as int;
            let o3 = o2 + 4;
            let o4 = o3 + 8;
            let o5 = o4 + cl;
            let endp = o5 + 32;
            assert(e.len() == 1 + (8 + nb.len()) + 4 + 8 + cl + 32);
            assert(e[0] == 1u8);
            assert(b[pos] == 1u8);
            assert(dec_tag(b, pos) == Some((1u8, o1)));
            assert(b.subrange(o1, o2) =~= e.subrange(1, (1 + 8 + nb.len()) as int));
            assert(e.subrange(1, (1 + 8 + nb.len()) as int) =~= enc_str(name));
            lemma_str_round_trip(name, b, o1);
            assert(b.subrange(o2, o3) =~= e.subrange(o2 - pos, o3 - pos));
            assert(e.subrange(o2 - pos, o3 - pos) =~= le_u32(permissions));
            lemma_u32_round_trip(permissions, b, o2);
            assert(b.subrange(o3, o4) =~= e.subrange(o3 - pos, o4 - pos));
            assert(e.subrange(o3 - pos, o4 - pos) =~= le_u64(children.len() as u64));
            lemma_u64_round_trip(children.len() as u64, b, o3);
            assert(b.subrange(o4, o5) =~= e.subrange(o4 - pos, o5 - pos));
            assert(e.subrange(o4 - pos, o5 - pos) =~= spec_enc_nodes(children));
            lemma_nodes_round_trip(children, b, o4);
            assert(b.subrange(o5, endp) =~= e.subrange(o5 - pos, endp - pos));
            assert(e.subrange(o5 - pos, endp - pos) =~= hash);
            assert(dec_digest(b, o5) == Some((hash, endp)));
            assert(spec_dec_node(b, pos) == Some((n, endp)));
        },
    }
}

/// Reading back a run of nodes written whole yields them.
pub proof fn lemma_nodes_round_trip(s: Seq<NodeV>, b: Seq<u8>, pos: int)
    requires
        forall|i: int| 0 <= i < s.len() ==> node_sizes_ok(#[trigger] s[i]),
        0 <= pos,
        pos + spec_enc_nodes(s).len() <= b.len(),
        b.subrange(pos, pos + spec_enc_nodes(s).len() as int) == spec_enc_nodes(s),
    ensures
        spec_dec_nodes(b, pos, s.len() as int) == Some((s, pos + spec_enc_nodes(s).len() as int)),
    decreases s,
{
    if s.len() == 0 {
        assert(s =~= Seq::<NodeV>::empty());
    } else {
        let e = spec_enc_nodes(s);
        let whole = b.subrange(pos, pos + e.len() as int);
        assert(forall|k: int| 0 <= k < e.len() ==> b[pos + k] == #[trigger] e[k]);
        let first = s.first();
        let rest = s.drop_first();
        let fl = spec_enc_node(first).len() as int;
        assert(e =~= spec_enc_node(first) + spec_enc_nodes(rest));
        assert(b.subrange(pos, pos + fl) =~= e.subrange(0, fl));
        assert(e.subrange(0, fl) =~= spec_enc_node(first));
        lemma_node_round_trip(first, b, pos);
        assert(spec_enc_node(first).len() >= 1);
        assert(b.subrange(pos + fl, pos + e.len() as int) =~= e.subrange(fl, e.len() as int));
        assert(e.subrange(fl, e.len() as int) =~= spec_enc_nodes(rest));
        assert(forall|i: int| 0 <= i < rest.len() ==> rest[i] == s[i + 1]);
        lemma_nodes_round_trip(rest, b, pos + fl);
        assert(seq![first] + rest =~= s);
        assert(spec_dec_nodes(b, pos, s.len() as int) == Some(
            (s, pos + spec_enc_nodes(s).len() as int),
        ));
    }
}


/// Append a node's encoding.
pub fn enc_node(out: &mut Vec<u8>, n: &Node)
    ensures
        final(out)@ == old(out)@ + spec_enc_node(n@),
    decreases *n,
{
    match n {
        Node::File { name, permissions, size, chunks, hash } => {
            out.push(0u8);
            enc_string(out, name.as_str());
            enc_u32(out, *permissions);
            enc_u64(out, *size);
            enc_u64(out, chunks.len() as u64);
            let ghost ds = crate::merkle::digest_views(chunks@);
            let ghost base = out@;
            let m = chunks.len();
            let mut i: usize = 0;
            proof {
                assert(enc_digests(ds.take(0)) =~= Seq::<u8>::empty());
                assert(out@ =~= base + enc_digests(ds.take(0)));
            }
            while i < m
                invariant
                    ds == crate::merkle::digest_views(chunks@),
                    m == chunks@.len(),
                    ds.len() == m,
                    0 <= i <= m,
                    out@ =~= base + enc_digests(ds.take(i as int)),
                decreases m - i,
            {
                enc_digest_vec(out, &chunks[i]);
                proof {
                    assert(ds.take(i + 1) =~= ds.take(i as int) + seq![ds[i as int]]);
                    lemma_enc_digests_concat(ds.take(i as int), seq![ds[i as int]]);
                    assert(enc_digests(Seq::<Seq<u8>>::empty()) =~= Seq::<u8>::empty());
                    assert(seq![ds[i as int]].drop_first() =~= Seq::<Seq<u8>>::empty());
                    assert(enc_digests(seq![ds[i as int]]) =~= ds[i as int]);
                }
                i += 1;
            }
            proof {
                assert(ds.take(m as int) =~= ds);
            }
            enc_digest_vec(out, hash);
            proof {
                assert(out@ =~= old(out)@ + spec_enc_node(n@));
            }
        },
        Node::Directory { name, permissions, children, hash } => {
            out.push(1u8);
            enc_string(out, name.as_str());
            enc_u32(out, *permissions);
            enc_u64(out, children.len() as u64);
            let ghost cs = crate::merkle::node_views(children@);
            let ghost base = out@;
            let m = children.len();
            let mut i: usize = 0;
            proof {
                crate::merkle::lemma_node_views(children@);
                assert(spec_enc_nodes(cs.take(0)) =~= Seq::<u8>::empty());
                assert(out@ =~= base + spec_enc_nodes(cs.take(0)));
            }
            while i < m
                invariant
                    *n is Directory,
                    (*n)->Directory_children == *children,
                    cs == crate::merkle::node_views(children@),
                    m == children@.len(),
                    cs.len() == m,
                    forall|k: int| 0 <= k < m ==> #[trigger] cs[k] == children@[k]@,
                    0 <= i <= m,
                    out@ =~= base + spec_enc_nodes(cs.take(i as int)),
                decreases m - i,
            {
                proof {
                    assert(decreases_to!(*n => (*n)->Directory_children));
                    assert(decreases_to!((*n)->Directory_children => (*n)->Directory_children@));
                    assert(decreases_to!(
                        (*n)->Directory_children@ => (*n)->Directory_children@[i as int]
                    ));
                }
                enc_node(out, &children[i]);
                proof {
                    assert(cs.take(i + 1) =~= cs.take(i as int) + seq![cs[i as int]]);
                    lemma_enc_nodes_concat(cs.take(i as int), seq![cs[i as int]]);
                    assert(spec_enc_nodes(Seq::<NodeV>::empty()) =~= Seq::<u8>::empty());
                    assert(seq![cs[i as int]].drop_first() =~= Seq::<NodeV>::empty());
                    assert(spec_enc_nodes(seq![cs[i as int]]) =~= spec_enc_node(cs[i as int]));
                }
                i += 1;
            }
            proof {
                assert(cs.take(m as int) =~= cs);
            }
            enc_digest_vec(out, hash);
            proof {
                assert(out@ =~= old(out)@ + spec_enc_node(n@));
            }
        },
    }
}

/// Read one byte.
fn read_tag(bytes: &[u8], pos: usize) -> (r: Option<(u8, usize)>)
    ensures
        ({
            match dec_tag(bytes@, pos as int) {
                Some((t, end)) => r matches Some(p) && p.0 == t && p.1 == end,
                None => r is None,
            }
        }),
{
    if pos >= bytes.len() {
        return None;
    }
    Some((*slice_index_get(bytes, pos), pos + 1))
}

/// Read one encoded node.
pub fn read_node(bytes: &[u8], pos: usize) -> (r: Option<(Node, usize)>)
    requires
        pos <= bytes@.len(),
    ensures
        ({
            match spec_dec_node(bytes@, pos as int) {
                Some((nv, end)) => r matches Some(p) && p.0@ == nv && p.1 == end,
                None => r is None,
            }
        }),
    decreases bytes@.len() - pos, 0nat, 0nat,
{
    let tag_r = read_tag(bytes, pos);
    let (tag, p1) = match tag_r {
        Some(x) => x,
        None => {
            return None;
        },
    };
    if tag == 0 {
        let (name, p2) = match read_string(bytes, p1) {
            Some(x) => x,
            None => {
                return None;
            },
        };
        let (permissions, p3) = match read_u32(bytes, p2) {
            Some(x) => x,
            None => {
                return None;
            },
        };
        let (size, p4) = match read_u64(bytes, p3) {
            Some(x) => x,
            None => {
                return None;
            },
        };
        let (cnt, p5) = match read_u64(bytes, p4) {
            Some(x) => x,
            None => {
                return None;
            },
        };
        let (chunks, p6) = match read_digest_run(bytes, p5, cnt) {
            Some(x) => x,
            None => {
                return None;
            },
        };
        let (hash, p7) = match read_digest(bytes, p6) {
            Some(x) => x,
            None => {
                return None;
            },
        };
        Some((Node::File { name, permissions, size, chunks, hash }, p7))
    } else if tag == 1 {
        let (name, p2) = match read_string(bytes, p1) {
            Some(x) => x,
            None => {
                return None;
            },
        };
        let (permissions, p3) = match read_u32(bytes, p2) {
            Some(x) => x,
            None => {
                return None;
            },
        };
        let (cnt, p4) = match read_u64(bytes, p3) {
            Some(x) => x,
            None => {
                return None;
            },
        };
        let (children, p5) = match read_node_run(bytes, p4, cnt) {
            Some(x) => x,
            None => {
                return None;
            },
        };
        let (hash, p6) = match read_digest(bytes, p5) {
            Some(x) => x,
            None => {
                return None;
            },
        };
        proof {
            crate::merkle::lemma_node_views(children@);
        }
        Some((Node::Directory { name, permissions, children, hash }, p6))
    } else {
        None
    }
}

/// Read a run of digests.
fn read_digest_run(bytes: &[u8], pos: usize, cnt: u64) -> (r: Option<(Vec<Digest>, usize)>)
    ensures
        ({
            match dec_digests(bytes@, pos as int, cnt as int) {
                Some((ds, end)) => r matches Some(p) && crate::merkle::digest_views(p.0@) == ds
                    && p.1 == end,
                None => r is None,
            }
        }),
    decreases cnt,
{
    if cnt == 0 {
        let v: Vec<Digest> = Vec::new();
        proof {
            assert(crate::merkle::digest_views(v@) =~= Seq::<Seq<u8>>::empty());
        }
        return Some((v, pos));
    }
    let (d, p) = match read_digest(bytes, pos) {
        Some(x) => x,
        None => {
            return None;
        },
    };
    let (mut rest, end) = match read_digest_run(bytes, p, cnt - 1) {
        Some(x) => x,
        None => {
            return None;
        },
    };
    rest.insert(0, d);
    proof {
        let ds0 = dec_digests(bytes@, pos as int, cnt as int).unwrap().0;
        assert(crate::merkle::digest_views(rest@) =~= ds0);
    }
    Some((rest, end))
}

/// Read a run of encoded nodes.
fn read_node_run(bytes: &[u8], pos: usize, cnt: u64) -> (r: Option<(Vec<Node>, usize)>)
    requires
        pos <= bytes@.len(),
    ensures
        ({
            match spec_dec_nodes(bytes@, pos as int, cnt as int) {
                Some((ns, end)) => r matches Some(p) && crate::merkle::node_views(p.0@) == ns
                    && p.1 == end,
                None => r is None,
            }
        }),
    decreases bytes@.len() - pos, 1nat, cnt,
{
    if cnt == 0 {
        let v: Vec<Node> = Vec::new();
        proof {
            assert(crate::merkle::node_views(v@) =~= Seq::<NodeV>::empty());
        }
        return Some((v, pos));
    }
    let (n, p) = match read_node(bytes, pos) {
        Some(x) => x,
        None => {
            return None;
        },
    };
    if !(pos < p && p <= bytes.len()) {
        return None;
    }
    let (mut rest, end) = match read_node_run(bytes, p, cnt - 1) {
        Some(x) => x,
        None => {
            return None;
        },
    };
    let ghost oldrest = rest@;
    rest.insert(0, n);
    proof {
        crate::merkle::lemma_node_views(rest@);
        crate::merkle::lemma_node_views(oldrest);
        let ns0 = spec_dec_nodes(bytes@, pos as int, cnt as int).unwrap().0;
        let prev = spec_dec_nodes(bytes@, p as int, cnt as int - 1).unwrap().0;
        assert(crate::merkle::node_views(oldrest) == prev);
        assert(forall|k: int| 1 <= k < rest@.len() ==> #[trigger] rest@[k] == oldrest[k - 1]);
        assert forall|k: int|
            0 <= k < rest@.len() implies #[trigger] crate::merkle::node_views(rest@)[k]
            == ns0[k] by {
            if k == 0 {
                assert(rest@[0] == n);
            } else {
                assert(rest@[k] == oldrest[k - 1]);
                assert(crate::merkle::node_views(oldrest)[k - 1] == oldrest[k - 1]@);
            }
        }
        assert(crate::merkle::node_views(rest@) =~= ns0);
    }
    Some((rest, end))
}


/// The encoding of an optional 64-bit value: presence byte, then the
/// value.
pub open spec fn enc_opt_u64(x: Option<u64>) -> Seq<u8> {
    match x {
        None => seq![0u8],
        Some(v) => seq![1u8] + le_u64(v),
    }
}

/// Reading an optional 64-bit value.
pub open spec fn dec_opt_u64(b: Seq<u8>, pos: int) -> Option<(Option<u64>, int)> {
    match dec_tag(b, pos) {
        None => None,
        Some((t, p)) => {
            if t == 0 {
                Some((None, p))
            } else if t == 1 {
                match dec_u64(b, p) {
                    None => None,
                    Some((v, end)) => Some((Some(v), end)),
                }
            } else {
                None
            }
        },
    }
}

/// Append an optional 64-bit value.
pub fn enc_opt_u64_vec(out: &mut Vec<u8>, x: &Option<u64>)
    ensures
        final(out)@ == old(out)@ + enc_opt_u64(*x),
{
    match x {
        None => {
            out.push(0u8);
            proof {
                assert(out@ =~= old(out)@ + enc_opt_u64(*x));
            }
        },
        Some(v) => {
            out.push(1u8);
            enc_u64(out, *v);
            proof {
                assert(out@ =~= old(out)@ + enc_opt_u64(*x));
            }
        },
    }
}

/// Read an optional 64-bit value.
pub fn read_opt_u64(bytes: &[u8], pos: usize) -> (r: Option<(Option<u64>, usize)>)
    ensures
        ({
            match dec_opt_u64(bytes@, pos as int) {
                Some((x, end)) => r matches Some(p) && p.0 == x && p.1 == end,
                None => r is None,
            }
        }),
{
    let (t, p) = match read_tag(bytes, pos) {
        Some(x) => x,
        None => {
            return None;
        },
    };
    if t == 0 {
        Some((None, p))
    } else if t == 1 {
        match read_u64(bytes, p) {
            Some((v, end)) => Some((Some(v), end)),
            None => None,
        }
    } else {
        None
    }
}

/// The encoding of a client message: a tag byte, then the fields.
pub open spec fn spec_enc_client(m: ClientMessageV) -> Seq<u8> {
    match m {
        ClientMessageV::Auth { token } => seq![0u8] + enc_str(token),
        ClientMessageV::HaveChunks { hashes } => seq![1u8] + le_u64(hashes.len() as u64)
            + enc_digests(hashes),
        ClientMessageV::ChunkData { hash, data } => seq![2u8] + hash + enc_bytes(data),
        ClientMessageV::CommitTree { hostname, tree } => seq![3u8] + enc_str(hostname)
            + spec_enc_node(tree),
        ClientMessageV::ListSnapshots { hostname } => seq![4u8] + enc_str(hostname),
        ClientMessageV::Rollback { hostname, snapshot_id } => seq![5u8] + enc_str(hostname)
            + enc_opt_u64(snapshot_id),
    }
}

/// Reading a client message.
pub open spec fn spec_dec_client(b: Seq<u8>, pos: int) -> Option<(ClientMessageV, int)>
    recommends
        0 <= pos <= b.len(),
{
    match dec_tag(b, pos) {
        None => None,
        Some((t, p)) => {
            if t == 0 {
                match dec_str(b, p) {
                    None => None,
                    Some((token, end)) => Some((ClientMessageV::Auth { token }, end)),
                }
            } else if t == 1 {
                match dec_u64(b, p) {
                    None => None,
                    Some((cnt, p2)) => match dec_digests(b, p2, cnt as int) {
                        None => None,
                        Some((hashes, end)) => Some((ClientMessageV::HaveChunks { hashes }, end)),
                    },
                }
            } else if t == 2 {
                match dec_digest(b, p) {
                    None => None,
                    Some((hash, p2)) => match dec_bytes(b, p2) {
                        None => None,
                        Some((data, end)) => Some((ClientMessageV::ChunkData { hash, data }, end)),
                    },
                }
            } else if t == 3 {
                match dec_str(b, p) {
                    None => None,
                    Some((hostname, p2)) => {
                        if 0 <= p2 <= b.len() {
                            match spec_dec_node(b, p2) {
                                None => None,
                                Some((tree, end)) => Some(
                                    (ClientMessageV::CommitTree { hostname, tree }, end),
                                ),
                            }
                        } else {
                            None
                        }
                    },
                }
            } else if t == 4 {
                match dec_str(b, p) {
                    None => None,
                    Some((hostname, end)) => Some((ClientMessageV::ListSnapshots { hostname }, end)),
                }
            } else if t == 5 {
                match dec_str(b, p) {
                    None => None,
                    Some((hostname, p2)) => match dec_opt_u64(b, p2) {
                        None => None,
                        Some((snapshot_id, end)) => Some(
                            (ClientMessageV::Rollback { hostname, snapshot_id }, end),
                        ),
                    },
                }
            } else {
                None
            }
        },
    }
}

/// Encode a client message for one frame of the transport.
pub fn encode_client_message(m: &ClientMessage) -> (r: Vec<u8>)
    ensures
        r@ == spec_enc_client(m@),
{
    let mut out: Vec<u8> = Vec::new();
    match m {
        ClientMessage::Auth { token } => {
            out.push(0u8);
            enc_string(&mut out, token.as_str());
        },
        ClientMessage::HaveChunks { hashes } => {
            out.push(1u8);
            enc_u64(&mut out, hashes.len() as u64);
            enc_digest_run(&mut out, hashes);
        },
        ClientMessage::ChunkData { hash, data } => {
            out.push(2u8);
            enc_digest_vec(&mut out, hash);
            enc_bytes_vec(&mut out, data.as_slice());
        },
        ClientMessage::CommitTree { hostname, tree } => {
            out.push(3u8);
            enc_string(&mut out, hostname.as_str());
            enc_node(&mut out, tree);
        },
        ClientMessage::ListSnapshots { hostname } => {
            out.push(4u8);
            enc_string(&mut out, hostname.as_str());
        },
        ClientMessage::Rollback { hostname, snapshot_id } => {
            out.push(5u8);
            enc_string(&mut out, hostname.as_str());
            enc_opt_u64_vec(&mut out, snapshot_id);
        },
    }
    proof {
        assert(out@ =~= spec_enc_client(m@));
    }
    out
}

/// Decode one frame into a client message.
pub fn decode_client_message(bytes: &[u8]) -> (r: Option<ClientMessage>)
    ensures
        ({
            match spec_dec_client(bytes@, 0) {
                Some((mv, _)) => r matches Some(m) && m@ == mv,
                None => r is None,
            }
        }),
{
    let (t, p) = match read_tag(bytes, 0) {
        Some(x) => x,
        None => {
            return None;
        },
    };
    if t == 0 {
        match read_string(bytes, p) {
            Some((token, _)) => Some(ClientMessage::Auth { token }),
            None => None,
        }
    } else if t == 1 {
        let (cnt, p2) = match read_u64(bytes, p) {
            Some(x) => x,
            None => {
                return None;
            },
        };
        match read_digest_run(bytes, p2, cnt) {
            Some((hashes, _)) => Some(ClientMessage::HaveChunks { hashes }),
            None => None,
        }
    } else if t == 2 {
        let (hash, p2) = match read_digest(bytes, p) {
            Some(x) => x,
            None => {
                return None;
            },
        };
        match read_bytes(bytes, p2) {
            Some((data, _)) => Some(ClientMessage::ChunkData { hash, data }),
            None => None,
        }
    } else if t == 3 {
        let (hostname, p2) = match read_string(bytes, p) {
            Some(x) => x,
            None => {
                return None;
            },
        };
        if p2 > bytes.len() {
            return None;
        }
        match read_node(bytes, p2) {
            Some((tree, _)) => Some(ClientMessage::CommitTree { hostname, tree }),
            None => None,
        }
    } else if t == 4 {
        match read_string(bytes, p) {
            Some((hostname, _)) => Some(ClientMessage::ListSnapshots { hostname }),
            None => None,
        }
    } else if t == 5 {
        let (hostname, p2) = match read_string(bytes, p) {
            Some(x) => x,
            None => {
                return None;
            },
        };
        match read_opt_u64(bytes, p2) {
            Some((snapshot_id, _)) => Some(ClientMessage::Rollback { hostname, snapshot_id }),
            None => None,
        }
    } else {
        None
    }
}

/// Append a run of digests.
fn enc_digest_run(out: &mut Vec<u8>, ds: &Vec<Digest>)
    ensures
        final(out)@ == old(out)@ + enc_digests(crate::merkle::digest_views(ds@)),
{
    let ghost dv = crate::merkle::digest_views(ds@);
    let ghost base = out@;
    let m = ds.len();
    let mut i: usize = 0;
    proof {
        assert(enc_digests(dv.take(0)) =~= Seq::<u8>::empty());
        assert(out@ =~= base + enc_digests(dv.take(0)));
    }
    while i < m
        invariant
            dv == crate::merkle::digest_views(ds@),
            m == ds@.len(),
            dv.len() == m,
            0 <= i <= m,
            out@ =~= base + enc_digests(dv.take(i as int)),
        decreases m - i,
    {
        enc_digest_vec(out, &ds[i]);
        proof {
            assert(dv.take(i + 1) =~= dv.take(i as int) + seq![dv[i as int]]);
            lemma_enc_digests_concat(dv.take(i as int), seq![dv[i as int]]);
            assert(enc_digests(Seq::<Seq<u8>>::empty()) =~= Seq::<u8>::empty());
            assert(seq![dv[i as int]].drop_first() =~= Seq::<Seq<u8>>::empty());
            assert(enc_digests(seq![dv[i as int]]) =~= dv[i as int]);
        }
        i += 1;
    }
    proof {
        assert(dv.take(m as int) =~= dv);
    }
}

/// The encoding of one snapshot-list entry: id, creation time, currency.
pub open spec fn enc_entry(e: (u64, Seq<char>, bool)) -> Seq<u8> {
    le_u64(e.0) + enc_str(e.1) + seq![if e.2 { 1u8 } else { 0u8 }]
}

/// The encoding of a run of snapshot-list entries.
pub open spec fn enc_entries(s: Seq<(u64, Seq<char>, bool)>) -> Seq<u8>
    decreases s.len(),
{
    if s.len() == 0 {
        Seq::empty()
    } else {
        enc_entry(s.first()) + enc_entries(s.drop_first())
    }
}

/// Writing two runs of entries one after the other writes their
/// concatenation.
pub proof fn lemma_enc_entries_concat(a: Seq<(u64, Seq<char>, bool)>, c: Seq<(u64, Seq<char>, bool)>)
    ensures
        enc_entries(a + c) == enc_entries(a) + enc_entries(c),
    decreases a.len(),
{
    if a.len() == 0 {
        assert(a + c =~= c);
        assert(enc_entries(a) + enc_entries(c) =~= enc_entries(c));
    } else {
        assert((a + c).first() == a.first());
        assert((a + c).drop_first() =~= a.drop_first() + c);
        lemma_enc_entries_concat(a.drop_first(), c);
        assert(enc_entries(a + c) =~= enc_entries(a) + enc_entries(c));
    }
}

/// Reading a run of `cnt` snapshot-list entries.
pub open spec fn dec_entries(b: Seq<u8>, pos: int, cnt: int) -> Option<
    (Seq<(u64, Seq<char>, bool)>, int),
>
    decreases cnt,
{
    if cnt <= 0 {
        Some((Seq::empty(), pos))
    } else {
        match dec_u64(b, pos) {
            None => None,
            Some((id, p1)) => match dec_str(b, p1) {
                None => None,
                Some((at, p2)) => match dec_tag(b, p2) {
                    None => None,
                    Some((cur, p3)) => {
                        if cur == 0 || cur == 1 {
                            match dec_entries(b, p3, cnt - 1) {
                                None => None,
                                Some((rest, end)) => Some(
                                    (seq![(id, at, cur == 1)] + rest, end),
                                ),
                            }
                        } else {
                            None
                        }
                    },
                },
            },
        }
    }
}

/// The encoding of a server message: a tag byte, then the fields.
pub open spec fn spec_enc_server(m: ServerMessageV) -> Seq<u8> {
    match m {
        ServerMessageV::AuthOk => seq![0u8],
        ServerMessageV::AuthFailed => seq![1u8],
        ServerMessageV::NeedChunks { hashes } => seq![2u8] + le_u64(hashes.len() as u64)
            + enc_digests(hashes),
        ServerMessageV::ChunkAck { hash } => seq![3u8] + hash,
        ServerMessageV::CommitOk { snapshot_id } => seq![4u8] + le_u64(snapshot_id),
        ServerMessageV::CommitFailed { reason } => seq![5u8] + enc_str(reason),
        ServerMessageV::SnapshotList { snapshots } => seq![6u8] + le_u64(snapshots.len() as u64)
            + enc_entries(snapshots),
        ServerMessageV::RollbackOk { snapshot_id } => seq![7u8] + le_u64(snapshot_id),
        ServerMessageV::RollbackFailed { reason } => seq![8u8] + enc_str(reason),
    }
}

/// Reading a server message.
pub open spec fn spec_dec_server(b: Seq<u8>, pos: int) -> Option<(ServerMessageV, int)>
    recommends
        0 <= pos <= b.len(),
{
    match dec_tag(b, pos) {
        None => None,
        Some((t, p)) => {
            if t == 0 {
                Some((ServerMessageV::AuthOk, p))
            } else if t == 1 {
                Some((ServerMessageV::AuthFailed, p))
            } else if t == 2 {
                match dec_u64(b, p) {
                    None => None,
                    Some((cnt, p2)) => match dec_digests(b, p2, cnt as int) {
                        None => None,
                        Some((hashes, end)) => Some((ServerMessageV::NeedChunks { hashes }, end)),
                    },
                }
            } else if t == 3 {
                match dec_digest(b, p) {
                    None => None,
                    Some((hash, end)) => Some((ServerMessageV::ChunkAck { hash }, end)),
                }
            } else if t == 4 {
                match dec_u64(b, p) {
                    None => None,
                    Some((snapshot_id, end)) => Some((ServerMessageV::CommitOk { snapshot_id }, end)),
                }
            } else if t == 5 {
                match dec_str(b, p) {
                    None => None,
                    Some((reason, end)) => Some((ServerMessageV::CommitFailed { reason }, end)),
                }
            } else if t == 6 {
                match dec_u64(b, p) {
                    None => None,
                    Some((cnt, p2)) => match dec_entries(b, p2, cnt as int) {
                        None => None,
                        Some((snapshots, end)) => Some(
                            (ServerMessageV::SnapshotList { snapshots }, end),
                        ),
                    },
                }
            } else if t == 7 {
                match dec_u64(b, p) {
                    None => None,
                    Some((snapshot_id, end)) => Some(
                        (ServerMessageV::RollbackOk { snapshot_id }, end),
                    ),
                }
            } else if t == 8 {
                match dec_str(b, p) {
                    None => None,
                    Some((reason, end)) => Some((ServerMessageV::RollbackFailed { reason }, end)),
                }
            } else {
                None
            }
        },
    }
}

/// Encode a server message for one frame of the transport.
pub fn encode_server_message(m: &ServerMessage) -> (r: Vec<u8>)
    ensures
        r@ == spec_enc_server(m@),
{
    let mut out: Vec<u8> = Vec::new();
    match m {
        ServerMessage::AuthOk => {
            out.push(0u8);
        },
        ServerMessage::AuthFailed => {
            out.push(1u8);
        },
        ServerMessage::NeedChunks { hashes } => {
            out.push(2u8);
            enc_u64(&mut out, hashes.len() as u64);
            enc_digest_run(&mut out, hashes);
        },
        ServerMessage::ChunkAck { hash } => {
            out.push(3u8);
            enc_digest_vec(&mut out, hash);
        },
        ServerMessage::CommitOk { snapshot_id } => {
            out.push(4u8);
            enc_u64(&mut out, *snapshot_id);
        },
        ServerMessage::CommitFailed { reason } => {
            out.push(5u8);
            enc_string(&mut out, reason.as_str());
        },
        ServerMessage::SnapshotList { snapshots } => {
            out.push(6u8);
            enc_u64(&mut out, snapshots.len() as u64);
            enc_entry_run(&mut out, snapshots);
        },
        ServerMessage::RollbackOk { snapshot_id } => {
            out.push(7u8);
            enc_u64(&mut out, *snapshot_id);
        },
        ServerMessage::RollbackFailed { reason } => {
            out.push(8u8);
            enc_string(&mut out, reason.as_str());
        },
    }
    proof {
        assert(out@ =~= spec_enc_server(m@));
    }
    out
}

/// Append a run of snapshot-list entries.
fn enc_entry_run(out: &mut Vec<u8>, s: &Vec<(u64, String, bool)>)
    ensures
        final(out)@ == old(out)@ + enc_entries(crate::protocol::snapshot_entry_views(s@)),
{
    let ghost ev = crate::protocol::snapshot_entry_views(s@);
    let ghost base = out@;
    let m = s.len();
    let mut i: usize = 0;
    proof {
        assert(enc_entries(ev.take(0)) =~= Seq::<u8>::empty());
        assert(out@ =~= base + enc_entries(ev.take(0)));
    }
    while i < m
        invariant
            ev == crate::protocol::snapshot_entry_views(s@),
            m == s@.len(),
            ev.len() == m,
            0 <= i <= m,
            out@ =~= base + enc_entries(ev.take(i as int)),
        decreases m - i,
    {
        enc_u64(out, s[i].0);
        enc_string(out, s[i].1.as_str());
        if s[i].2 {
            out.push(1u8);
        } else {
            out.push(0u8);
        }
        proof {
            assert(ev.take(i + 1) =~= ev.take(i as int) + seq![ev[i as int]]);
            lemma_enc_entries_concat(ev.take(i as int), seq![ev[i as int]]);
            assert(enc_entries(Seq::<(u64, Seq<char>, bool)>::empty()) =~= Seq::<u8>::empty());
            assert(seq![ev[i as int]].drop_first() =~= Seq::<(u64, Seq<char>, bool)>::empty());
            assert(enc_entries(seq![ev[i as int]]) =~= enc_entry(ev[i as int]));
            assert(out@ =~= base + enc_entries(ev.take(i + 1)));
        }
        i += 1;
    }
    proof {
        assert(ev.take(m as int) =~= ev);
    }
}

/// Read a run of snapshot-list entries.
fn read_entry_run(bytes: &[u8], pos: usize, cnt: u64) -> (r: Option<
    (Vec<(u64, String, bool)>, usize),
>)
    ensures
        ({
            match dec_entries(bytes@, pos as int, cnt as int) {
                Some((es, end)) => r matches Some(p) && crate::protocol::snapshot_entry_views(p.0@)
                    == es && p.1 == end,
                None => r is None,
            }
        }),
    decreases cnt,
{
    if cnt == 0 {
        let v: Vec<(u64, String, bool)> = Vec::new();
        proof {
            assert(crate::protocol::snapshot_entry_views(v@) =~= Seq::<
                (u64, Seq<char>, bool),
            >::empty());
        }
        return Some((v, pos));
    }
    let (id, p1) = match read_u64(bytes, pos) {
        Some(x) => x,
        None => {
            return None;
        },
    };
    let (at, p2) = match read_string(bytes, p1) {
        Some(x) => x,
        None => {
            return None;
        },
    };
    let (cur, p3) = match read_tag(bytes, p2) {
        Some(x) => x,
        None => {
            return None;
        },
    };
    if cur != 0 && cur != 1 {
        return None;
    }
    let (mut rest, end) = match read_entry_run(bytes, p3, cnt - 1) {
        Some(x) => x,
        None => {
            return None;
        },
    };
    rest.insert(0, (id, at, cur == 1));
    proof {
        let es0 = dec_entries(bytes@, pos as int, cnt as int).unwrap().0;
        assert(crate::protocol::snapshot_entry_views(rest@) =~= es0);
    }
    Some((rest, end))
}

/// Decode one frame into a server message.
pub fn decode_server_message(bytes: &[u8]) -> (r: Option<ServerMessage>)
    ensures
        ({
            match spec_dec_server(bytes@, 0) {
                Some((mv, _)) => r matches Some(m) && m@ == mv,
                None => r is None,
            }
        }),
{
    let (t, p) = match read_tag(bytes, 0) {
        Some(x) => x,
        None => {
            return None;
        },
    };
    if t == 0 {
        Some(ServerMessage::AuthOk)
    } else if t == 1 {
        Some(ServerMessage::AuthFailed)
    } else if t == 2 {
        let (cnt, p2) = match read_u64(bytes, p) {
            Some(x) => x,
            None => {
                return None;
            },
        };
        match read_digest_run(bytes, p2, cnt) {
            Some((hashes, _)) => Some(ServerMessage::NeedChunks { hashes }),
            None => None,
        }
    } else if t == 3 {
        match read_digest(bytes, p) {
            Some((hash, _)) => Some(ServerMessage::ChunkAck { hash }),
            None => None,
        }
    } else if t == 4 {
        match read_u64(bytes, p) {
            Some((snapshot_id, _)) => Some(ServerMessage::CommitOk { snapshot_id }),
            None => None,
        }
    } else if t == 5 {
        match read_string(bytes, p) {
            Some((reason, _)) => Some(ServerMessage::CommitFailed { reason }),
            None => None,
        }
    } else if t == 6 {
        let (cnt, p2) = match read_u64(bytes, p) {
            Some(x) => x,
            None => {
                return None;
            },
        };
        match read_entry_run(bytes, p2, cnt) {
            Some((snapshots, _)) => Some(ServerMessage::SnapshotList { snapshots }),
            None => None,
        }
    } else if t == 7 {
        match read_u64(bytes, p) {
            Some((snapshot_id, _)) => Some(ServerMessage::RollbackOk { snapshot_id }),
            None => None,
        }
    } else if t == 8 {
        match read_string(bytes, p) {
            Some((reason, _)) => Some(ServerMessage::RollbackFailed { reason }),
            None => None,
        }
    } else {
        None
    }
}


/// Every tree held in memory keeps the counts and digest widths its
/// encoding needs; walking it establishes that fact for the prover.
pub fn attest_node_sizes(n: &Node)
    ensures
        node_sizes_ok(n@),
    decreases *n,
{
    match n {
        Node::File { name, chunks, hash, .. } => {
            let _ = name.as_str().as_bytes().len();
            let _ = chunks.len();
            proof {
                assert(hash@.len() == 32);
                assert(crate::merkle::digest_views(chunks@).len() == chunks@.len());
                assert(forall|i: int|
                    0 <= i < chunks@.len() ==> (#[trigger] crate::merkle::digest_views(
                        chunks@,
                    )[i]).len() == 32);
            }
        },
        Node::Directory { name, children, hash, .. } => {
            let _ = name.as_str().as_bytes().len();
            let _ = children.len();
            proof {
                assert(hash@.len() == 32);
                crate::merkle::lemma_node_views(children@);
            }
            let m = children.len();
            let mut i: usize = 0;
            while i < m
                invariant
                    *n is Directory,
                    (*n)->Directory_children == *children,
                    m == children@.len(),
                    crate::merkle::node_views(children@).len() == m,
                    forall|k: int|
                        0 <= k < m ==> #[trigger] crate::merkle::node_views(children@)[k]
                            == children@[k]@,
                    0 <= i <= m,
                    forall|k: int|
                        0 <= k < i ==> node_sizes_ok(
                            #[trigger] crate::merkle::node_views(children@)[k],
                        ),
                decreases m - i,
            {
                proof {
                    assert(decreases_to!(*n => (*n)->Directory_children));
                    assert(decreases_to!((*n)->Directory_children => (*n)->Directory_children@));
                    assert(decreases_to!(
                        (*n)->Directory_children@ => (*n)->Directory_children@[i as int]
                    ));
                }
                attest_node_sizes(&children[i]);
                i += 1;
            }
        },
    }
}

} // verus!
