//! Segments: the unit exchanged with the bearer, and how a payload is cut into them.

use std::time::Instant;
use vstd::prelude::*;

verus! {

/// The most payload bytes that one segment carries.
pub const MAX_SEGMENT_PAYLOAD_LENGTH: usize = 65535;

/// What a mini-protocol sends or receives: any number of bytes.
pub type Payload = Vec<u8>;

/// `std::time::Instant`: the clock sample that a segment is stamped with.
/// It is carried through and never looked into.
#[verifier::external_type_specification]
#[verifier::external_body]
pub struct ExInstant(Instant);

/// A segment as it is written to the bearer.
pub struct Segment {
    pub clock: Instant,
    pub id: u16,
    pub chunk: Seq<u8>,
}

/// A segment as it is read from the bearer.
pub struct Inbound {
    pub id: u16,
    pub timestamp: u32,
    pub chunk: Seq<u8>,
}

/// How many segments a payload of `len` bytes is cut into: none for an empty payload.
pub open spec fn chunk_count(len: nat) -> nat {
    ((len + MAX_SEGMENT_PAYLOAD_LENGTH - 1) / (MAX_SEGMENT_PAYLOAD_LENGTH as int)) as nat
}

/// The bytes of the `i`-th segment of `payload`.
pub open spec fn chunk(payload: Seq<u8>, i: int) -> Seq<u8> {
    let start = i * MAX_SEGMENT_PAYLOAD_LENGTH;
    let end = if start + MAX_SEGMENT_PAYLOAD_LENGTH <= payload.len() {
        start + MAX_SEGMENT_PAYLOAD_LENGTH
    } else {
        payload.len() as int
    };
    payload.subrange(start, end)
}

/// A payload cut into pieces of at most `MAX_SEGMENT_PAYLOAD_LENGTH` bytes, in order.
pub open spec fn chunks(payload: Seq<u8>) -> Seq<Seq<u8>> {
    Seq::new(chunk_count(payload.len()), |i: int| chunk(payload, i))
}

/// The segments that carry `payload` for protocol `id`, all stamped with `clock`.
pub open spec fn segments(clock: Instant, id: u16, payload: Seq<u8>) -> Seq<Segment> {
    Seq::new(
        chunk_count(payload.len()),
        |i: int| Segment { clock, id, chunk: chunk(payload, i) },
    )
}

/// The bytes that a run of segments carries, in the order of the segments.
pub open spec fn reassemble(segments: Seq<Segment>) -> Seq<u8> {
    segments.map_values(|s: Segment| s.chunk).flatten()
}

/// Every chunk of a payload holds at least one byte and at most
/// `MAX_SEGMENT_PAYLOAD_LENGTH`; only the last may be short.
pub proof fn lemma_chunk_len(payload: Seq<u8>, i: int)
    requires
        0 <= i < chunk_count(payload.len()),
    ensures
        1 <= chunk(payload, i).len() <= MAX_SEGMENT_PAYLOAD_LENGTH,
        i + 1 < chunk_count(payload.len()) ==> chunk(payload, i).len()
            == MAX_SEGMENT_PAYLOAD_LENGTH,
        i * MAX_SEGMENT_PAYLOAD_LENGTH + chunk(payload, i).len() <= payload.len(),
        i + 1 == chunk_count(payload.len()) ==> i * MAX_SEGMENT_PAYLOAD_LENGTH + chunk(
            payload,
            i,
        ).len() == payload.len(),
{
}

/// The first `n` chunks of a payload, joined, are its first bytes.
proof fn lemma_chunks_prefix(payload: Seq<u8>, n: int)
    requires
        0 <= n <= chunk_count(payload.len()),
    ensures
        chunks(payload).take(n).flatten() == payload.take(
            if n == chunk_count(payload.len()) {
                payload.len() as int
            } else {
                n * MAX_SEGMENT_PAYLOAD_LENGTH
            },
        ),
    decreases n,
{
    let all = chunks(payload);
    if n > 0 {
        lemma_chunks_prefix(payload, n - 1);
        lemma_chunk_len(payload, n - 1);
        assert(all.take(n) =~= all.take(n - 1).push(chunk(payload, n - 1)));
        all.take(n - 1).lemma_flatten_push(chunk(payload, n - 1));
    }
}

/// Cutting a payload into chunks and joining the chunks in order gives the
/// payload back, whatever its length.
pub proof fn lemma_chunks_rejoin(payload: Seq<u8>)
    ensures
        chunks(payload).flatten() == payload,
{
    let n = chunk_count(payload.len()) as int;
    lemma_chunks_prefix(payload, n);
    assert(chunks(payload).take(n) =~= chunks(payload));
}

/// The segments of a payload all carry its protocol id and clock, none carries
/// more than `MAX_SEGMENT_PAYLOAD_LENGTH` bytes, and together, in order, they
/// carry exactly the payload. A payload that is not empty takes at least one
/// segment; an empty one takes none.
pub proof fn lemma_segments_carry_payload(clock: Instant, id: u16, payload: Seq<u8>)
    ensures
        reassemble(segments(clock, id, payload)) == payload,
        segments(clock, id, payload).len() == chunk_count(payload.len()),
        payload.len() > 0 <==> segments(clock, id, payload).len() > 0,
        forall|i: int|
            0 <= i < segments(clock, id, payload).len() ==> {
                let s = #[trigger] segments(clock, id, payload)[i];
                &&& s.id == id
                &&& s.clock == clock
                &&& s.chunk == chunk(payload, i)
                &&& 1 <= s.chunk.len() <= MAX_SEGMENT_PAYLOAD_LENGTH
            },
{
    let segs = segments(clock, id, payload);
    assert(segs.map_values(|s: Segment| s.chunk) =~= chunks(payload));
    lemma_chunks_rejoin(payload);
}

} // verus!
