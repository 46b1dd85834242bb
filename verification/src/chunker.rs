//! Content-defined chunking: split a byte sequence into variable-size
//! chunks whose cut points come from the data itself, and tag each chunk
//! with the BLAKE3 digest of its bytes.

use vstd::prelude::*;
use vstd::slice::{slice_subrange, slice_to_vec};

use crate::hashing::{blake3_hash, blake3_of, Digest};

verus! {

/// A content-addressed chunk of data.
#[derive(Debug, Clone)]
pub struct Chunk {
    pub hash: Digest,
    pub data: Vec<u8>,
}

/// Chunk sizes: min 16 KiB, avg 32 KiB, max 64 KiB.
pub const MIN_SIZE: u32 = 16384;

pub const AVG_SIZE: u32 = 32768;

pub const MAX_SIZE: u32 = 65536;

/// The (offset, length) spans that the FastCDC cut-point rule chooses for a
/// byte sequence; they depend on the bytes alone.
pub uninterp spec fn cdc_spans_of(data: Seq<u8>) -> Seq<(usize, usize)>;

/// The spans cover `len` bytes exactly once, in order, with no gaps or
/// overlaps; every span holds at least one byte.
pub open spec fn spans_cover(spans: Seq<(usize, usize)>, len: nat) -> bool {
    &&& (spans.len() == 0 ==> len == 0)
    &&& (spans.len() > 0 ==> spans[0].0 == 0)
    &&& (spans.len() > 0 ==> spans[spans.len() - 1].0 + spans[spans.len() - 1].1 == len)
    &&& (forall|i: int|
        0 <= i < spans.len() - 1 ==> #[trigger] spans[i + 1].0 == spans[i].0 + spans[i].1)
    &&& (forall|i: int| 0 <= i < spans.len() ==> 1 <= #[trigger] spans[i].1)
    &&& (forall|i: int| 0 <= i < spans.len() ==> #[trigger] spans[i].0 + spans[i].1 <= len)
}

/// The spans keep the configured sizes: none is longer than the maximum,
/// and only the last may be shorter than the minimum.
pub open spec fn spans_sized(spans: Seq<(usize, usize)>) -> bool {
    &&& (forall|i: int| 0 <= i < spans.len() ==> (#[trigger] spans[i].1) <= MAX_SIZE)
    &&& (forall|i: int| 0 <= i < spans.len() - 1 ==> (#[trigger] spans[i].1) >= MIN_SIZE)
}

/// Relies on fastcdc::v2020::FastCDC: the iterator yields consecutive spans
/// that cover the input exactly once, in order, each at least one byte; a
/// cut below the minimum size happens only where it takes all that
/// remains, so only the last span may be short, and no span passes the
/// maximum; the cut points are a function of the input bytes alone.
#[verifier::external_body]
pub(crate) fn cdc_spans(data: &[u8]) -> (r: Vec<(usize, usize)>)
    ensures
        r@ == cdc_spans_of(data@),
        spans_cover(r@, data@.len()),
        spans_sized(r@),
{
    fastcdc::v2020::FastCDC::new(data, MIN_SIZE, AVG_SIZE, MAX_SIZE)
        .map(|c| (c.offset, c.length))
        .collect()
}

/// The byte sequences of a sequence of chunks, in order.
pub open spec fn chunk_payloads(chunks: Seq<Chunk>) -> Seq<Seq<u8>> {
    chunks.map_values(|c: Chunk| c.data@)
}

/// The concatenation of the chunks' bytes, in order.
pub open spec fn concat_chunk_bytes(chunks: Seq<Chunk>) -> Seq<u8> {
    chunk_payloads(chunks).flatten()
}

/// Every chunk's digest is the BLAKE3 digest of its own bytes.
pub open spec fn chunks_tagged(chunks: Seq<Chunk>) -> bool {
    forall|i: int| 0 <= i < chunks.len() ==> (#[trigger] chunks[i].hash)@ == blake3_of(
        chunks[i].data@,
    )
}

/// The (digest, bytes) records of a sequence of chunks.
pub open spec fn chunk_records(chunks: Seq<Chunk>) -> Seq<(Seq<u8>, Seq<u8>)> {
    chunks.map_values(|c: Chunk| (c.hash@, c.data@))
}

/// The (digest, bytes) records that chunking a byte sequence yields: one
/// record per cut-point span, a deterministic function of the bytes.
pub open spec fn chunk_records_of(data: Seq<u8>) -> Seq<(Seq<u8>, Seq<u8>)> {
    cdc_spans_of(data).map_values(
        |s: (usize, usize)|
            (
                blake3_of(data.subrange(s.0 as int, s.0 + s.1)),
                data.subrange(s.0 as int, s.0 + s.1),
            ),
    )
}

/// Concatenating the pieces a covering span list cuts from `data`, from
/// span `k` on, yields the bytes from that span's offset to the end.
pub proof fn lemma_spans_concat(data: Seq<u8>, spans: Seq<(usize, usize)>, pieces: Seq<Seq<u8>>, k: int)
    requires
        spans_cover(spans, data.len()),
        pieces.len() == spans.len(),
        forall|i: int|
            0 <= i < spans.len() ==> #[trigger] pieces[i] == data.subrange(
                spans[i].0 as int,
                spans[i].0 + spans[i].1,
            ),
        0 <= k <= spans.len(),
    ensures
        k < spans.len() ==> pieces.skip(k).flatten() == data.subrange(
            spans[k].0 as int,
            data.len() as int,
        ),
        k == spans.len() ==> pieces.skip(k).flatten() == Seq::<u8>::empty(),
    decreases spans.len() - k,
{
    if k == spans.len() {
        assert(pieces.skip(k) =~= Seq::<Seq<u8>>::empty());
        assert(pieces.skip(k).flatten() =~= Seq::<u8>::empty());
    } else {
        lemma_spans_concat(data, spans, pieces, k + 1);
        let rest = pieces.skip(k);
        assert(rest.len() > 0);
        assert(rest.first() == pieces[k]);
        assert(rest.drop_first() =~= pieces.skip(k + 1));
        assert(rest.flatten() == rest.first() + rest.drop_first().flatten());
        if k + 1 < spans.len() {
            assert(spans[k + 1].0 == spans[k].0 + spans[k].1);
            assert(pieces[k] + data.subrange(spans[k + 1].0 as int, data.len() as int)
                =~= data.subrange(spans[k].0 as int, data.len() as int));
        } else {
            assert(spans[k].0 + spans[k].1 == data.len());
            assert(pieces[k] + Seq::<u8>::empty() =~= data.subrange(
                spans[k].0 as int,
                data.len() as int,
            ));
        }
    }
}

/// Chunk a byte sequence with the FastCDC cut-point rule, tagging each
/// chunk with the BLAKE3 digest of its bytes.
///
/// The chunks' bytes concatenate back to the input exactly, each digest is
/// the BLAKE3 digest of that chunk's bytes, and the whole result is a
/// function of the input bytes alone. Empty input yields no chunks.
pub fn chunk_data(data: &[u8]) -> (r: Vec<Chunk>)
    ensures
        concat_chunk_bytes(r@) == data@,
        chunks_tagged(r@),
        chunk_records(r@) == chunk_records_of(data@),
        r@.len() == 0 <==> data@.len() == 0,
        forall|i: int| 0 <= i < r@.len() ==> (#[trigger] r@[i]).data@.len() <= MAX_SIZE,
        forall|i: int| 0 <= i < r@.len() - 1 ==> (#[trigger] r@[i]).data@.len() >= MIN_SIZE,
        1 <= data@.len() <= MIN_SIZE ==> r@.len() == 1 && r@[0].data@ == data@,
{
    let spans = cdc_spans(data);
    let n = data.len();
    let mut out: Vec<Chunk> = Vec::new();
    let mut i: usize = 0;
    while i < spans.len()
        invariant
            spans@ == cdc_spans_of(data@),
            spans_cover(spans@, data@.len()),
            n == data@.len(),
            0 <= i <= spans@.len(),
            out@.len() == i,
            forall|j: int|
                0 <= j < i ==> (#[trigger] out@[j]).data@ == data@.subrange(
                    spans@[j].0 as int,
                    spans@[j].0 + spans@[j].1,
                ),
            forall|j: int|
                0 <= j < i ==> (#[trigger] out@[j]).hash@ == blake3_of(out@[j].data@),
        decreases spans@.len() - i,
    {
        let (off, len) = spans[i];
        proof {
            assert(spans@[i as int].0 + spans@[i as int].1 <= data@.len());
        }
        let piece = slice_subrange(data, off, off + len);
        let bytes = slice_to_vec(piece);
        let digest = blake3_hash(bytes.as_slice());
        out.push(Chunk { hash: digest, data: bytes });
        i += 1;
    }
    proof {
        lemma_spans_concat(data@, spans@, chunk_payloads(out@), 0);
        if spans@.len() > 0 {
            assert(chunk_payloads(out@).skip(0) =~= chunk_payloads(out@));
            assert(data@.subrange(spans@[0].0 as int, data@.len() as int) =~= data@);
        } else {
            assert(chunk_payloads(out@).skip(0) =~= chunk_payloads(out@));
            assert(concat_chunk_bytes(out@) =~= data@);
        }
        assert(chunk_records(out@) =~= chunk_records_of(data@));
        if 1 <= data@.len() <= MIN_SIZE {
            lemma_small_input_single_span(spans@, data@.len());
            assert(out@[0].data@ =~= data@);
        }
    }
    out
}

/// Offsets grow along a covering span list.
proof fn lemma_span_offsets_grow(spans: Seq<(usize, usize)>, len: nat, j: int)
    requires
        spans_cover(spans, len),
        1 <= j < spans.len(),
    ensures
        spans[j].0 >= spans[1].0,
    decreases j,
{
    if j > 1 {
        lemma_span_offsets_grow(spans, len, j - 1);
        assert(spans[(j - 1) + 1].0 == spans[j - 1].0 + spans[j - 1].1);
    }
}

/// An input of at most the minimum chunk size is covered by one span.
proof fn lemma_small_input_single_span(spans: Seq<(usize, usize)>, len: nat)
    requires
        spans_cover(spans, len),
        spans_sized(spans),
        1 <= len <= MIN_SIZE,
    ensures
        spans.len() == 1,
        spans[0].0 == 0,
        spans[0].1 == len,
{
    assert(spans.len() > 0);
    if spans.len() >= 2 {
        let last = spans.len() - 1;
        assert(spans[0].1 >= MIN_SIZE);
        assert(spans[0int + 1].0 == spans[0int].0 + spans[0int].1);
        lemma_span_offsets_grow(spans, len, last);
        assert(spans[last].0 >= spans[1].0);
        assert(spans[last].0 + spans[last].1 == len);
        assert(spans[last].1 >= 1);
        assert(false);
    }
}

} // verus!
