use vstd::prelude::*;

use vstd::bytes::lemma_auto_spec_u64_to_from_le_bytes;
use vstd::bytes::spec_u64_from_le_bytes;
use vstd::bytes::spec_u64_to_le_bytes;
use vstd::bytes::u64_from_le_bytes;

verus! {

/// Byte framing of a payload: its length as a little-endian 8-byte
/// integer, then the payload bytes themselves.
pub open spec fn spec_frame(data: Seq<u8>) -> Seq<u8> {
    spec_u64_to_le_bytes(data.len() as u64) + data
}

/// Whether the stream starts with a complete frame.
pub open spec fn spec_frame_ok(bytes: Seq<u8>) -> bool {
    bytes.len() >= 8 && spec_u64_from_le_bytes(bytes.take(8)) + 8 <= bytes.len()
}

/// The payload of the leading frame.
pub open spec fn spec_frame_payload(bytes: Seq<u8>) -> Seq<u8> {
    bytes.subrange(8, 8 + spec_u64_from_le_bytes(bytes.take(8)) as int)
}

/// What follows the leading frame.
pub open spec fn spec_frame_rest(bytes: Seq<u8>) -> Seq<u8> {
    bytes.skip(8 + spec_u64_from_le_bytes(bytes.take(8)) as int)
}

/// The frame of a payload is 8 bytes longer than the payload.
pub proof fn lemma_frame_len(data: Seq<u8>)
    ensures
        spec_frame(data).len() == 8 + data.len(),
{
    lemma_auto_spec_u64_to_from_le_bytes();
}

/// Law: reading a frame back yields exactly the framed payload and hands
/// the remaining stream on, whatever follows the frame.
pub proof fn lemma_frame_round_trip(data: Seq<u8>, extra: Seq<u8>)
    requires
        data.len() <= u64::MAX,
    ensures
        spec_frame_ok(spec_frame(data) + extra),
        spec_frame_payload(spec_frame(data) + extra) == data,
        spec_frame_rest(spec_frame(data) + extra) == extra,
{
    lemma_auto_spec_u64_to_from_le_bytes();
    let all = spec_frame(data) + extra;
    assert(all.take(8) =~= spec_u64_to_le_bytes(data.len() as u64));
    assert(spec_frame_payload(all) =~= data);
    assert(spec_frame_rest(all) =~= extra);
}

/// Relies on sucds::util::vec_io::serialize_u8: it writes the slice's
/// length as a little-endian u64 followed by the bytes themselves, and
/// returns 8 plus the byte count. Writing into a `Vec<u8>` is the
/// infallible `std::io::Write` implementation that appends to the vector.
#[verifier::external_body]
pub(crate) fn frame_into(data: &Vec<u8>, out: &mut Vec<u8>) -> (r: usize)
    requires
        old(out)@.len() + 8 + data@.len() <= usize::MAX,
    ensures
        final(out)@ == old(out)@ + spec_frame(data@),
        r == 8 + data@.len(),
{
    sucds::util::vec_io::serialize_u8(&data[..], &mut *out).unwrap()
}

/// Relies on sucds::util::vec_io::deserialize_u8: it reads a little-endian
/// u64 length and then exactly that many bytes; a byte-slice reader
/// consumes the frame from the front and keeps the rest, and a stream that
/// holds a complete frame is read without error.
#[verifier::external_body]
pub(crate) fn unframe_from<'a>(bytes: &'a [u8]) -> (r: (Vec<u8>, &'a [u8]))
    requires
        spec_frame_ok(bytes@),
    ensures
        r.0@ == spec_frame_payload(bytes@),
        r.1@ == spec_frame_rest(bytes@),
{
    let mut reader = bytes;
    let payload = sucds::util::vec_io::deserialize_u8(&mut reader).unwrap();
    (payload, reader)
}

/// The leading frame reassembles the stream.
pub proof fn lemma_frame_reassemble(bytes: Seq<u8>)
    requires
        spec_frame_ok(bytes),
    ensures
        bytes == spec_frame(spec_frame_payload(bytes)) + spec_frame_rest(bytes),
{
    lemma_auto_spec_u64_to_from_le_bytes();
    let len = spec_u64_from_le_bytes(bytes.take(8)) as int;
    assert(spec_frame_payload(bytes).len() == len);
    assert(spec_u64_to_le_bytes(spec_frame_payload(bytes).len() as u64) =~= bytes.take(8));
    assert(spec_frame(spec_frame_payload(bytes)) + spec_frame_rest(bytes) =~= bytes);
}

/// Checks that the stream starts with a complete frame.
pub fn frame_ok(bytes: &[u8]) -> (r: bool)
    ensures
        r == spec_frame_ok(bytes@),
{
    if bytes.len() < 8 {
        return false;
    }
    let len = u64_from_le_bytes(&bytes[0..8]);
    proof {
        assert(bytes@.subrange(0, 8) =~= bytes@.take(8));
    }
    let rem = bytes.len() - 8;
    len <= rem as u64
}

} // verus!

