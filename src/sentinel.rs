//! The sentinel-terminated protocol: each chunk travels as a frame, and one
//! frame of length zero closes the stream.
use vstd::prelude::*;

use crate::codec::{
    append_bytes, be_value, decode_u64_be, encode_frame, frame_bytes, lemma_u64_header, read_u64_at,
    HEADER_LEN,
};
use crate::error::TransferError;

verus! {

/// `data` cut into consecutive pieces of `chunk` bytes, the last one shorter
/// when `chunk` does not divide the length; no piece for empty data.
pub open spec fn split_chunks(data: Seq<u8>, chunk: nat) -> Seq<Seq<u8>>
    decreases data.len(),
{
    if data.len() == 0 || chunk == 0 {
        Seq::empty()
    } else if data.len() <= chunk {
        seq![data]
    } else {
        seq![data.subrange(0, chunk as int)] + split_chunks(
            data.subrange(chunk as int, data.len() as int),
            chunk,
        )
    }
}

/// The frames' wire forms, back to back.
pub open spec fn frames_wire(frames: Seq<Seq<u8>>) -> Seq<u8>
    decreases frames.len(),
{
    if frames.len() == 0 {
        Seq::empty()
    } else {
        frame_bytes(frames[0]) + frames_wire(frames.drop_first())
    }
}

/// The payloads a sender emits for `data`, in order: one per chunk, then the
/// empty sentinel.
pub open spec fn sentinel_frames(data: Seq<u8>, chunk: nat) -> Seq<Seq<u8>> {
    split_chunks(data, chunk).push(Seq::empty())
}

/// What a receiver reads from the start of `s`: the payloads up to the
/// sentinel, joined, and the number of bytes up to and including the
/// sentinel; `None` when `s` ends before the sentinel.
pub open spec fn parse_sentinel(s: Seq<u8>) -> Option<(Seq<u8>, nat)>
    decreases s.len(),
{
    if s.len() < 8 {
        None
    } else {
        let n = be_value(s.subrange(0, 8));
        if n == 0 {
            Some((Seq::empty(), 8))
        } else if s.len() < 8 + n {
            None
        } else {
            match parse_sentinel(s.subrange(8 + n as int, s.len() as int)) {
                None => None,
                Some((d, used)) => Some((s.subrange(8, 8 + n as int) + d, 8 + n + used)),
            }
        }
    }
}

/// The payload length that a frame header announces, or `None` for the
/// sentinel.
pub fn frame_payload_len(header: &[u8; 8]) -> (r: Option<u64>)
    ensures
        be_value(header@) == 0 <==> r is None,
        r is Some ==> r->Some_0 == be_value(header@),
{
    let n = decode_u64_be(header);
    if n == 0 {
        None
    } else {
        Some(n)
    }
}

/// What a sender writes after a read of the file gave `read`: the frame that
/// carries it, and whether that frame closes the stream, which the sentinel
/// does after an empty read.
pub fn frame_for_read(read: &[u8]) -> (r: (Vec<u8>, bool))
    ensures
        r.0@ == frame_bytes(read@),
        r.1 == (read@.len() == 0),
{
    (encode_frame(read), read.len() == 0)
}

pub proof fn lemma_frames_wire_push(frames: Seq<Seq<u8>>, last: Seq<u8>)
    ensures
        frames_wire(frames.push(last)) == frames_wire(frames) + frame_bytes(last),
    decreases frames.len(),
{
    if frames.len() == 0 {
        assert(frames.push(last).drop_first() =~= Seq::<Seq<u8>>::empty());
        assert(frames.push(last)[0] == last);
        assert(frames_wire(Seq::<Seq<u8>>::empty()) == Seq::<u8>::empty());
        assert(frames_wire(frames.push(last)) =~= frame_bytes(last));
        assert(frames_wire(frames) + frame_bytes(last) =~= frame_bytes(last));
    } else {
        lemma_frames_wire_push(frames.drop_first(), last);
        assert(frames.push(last).drop_first() =~= frames.drop_first().push(last));
        assert(frames_wire(frames.push(last)) =~= frames_wire(frames) + frame_bytes(last));
    }
}

/// The wire form of `data` sent in chunks of `chunk_size` bytes, built as a
/// sender writes it: a frame per chunk, then the sentinel; fails on a chunk
/// size of zero.
pub fn encode_sentinel(data: &[u8], chunk_size: u64) -> (r: Result<Vec<u8>, TransferError>)
    ensures
        chunk_size == 0 <==> r == Err::<Vec<u8>, TransferError>(TransferError::ZeroChunkSize),
        chunk_size > 0 <==> r is Ok,
        r is Ok ==> r->Ok_0@ == frames_wire(sentinel_frames(data@, chunk_size as nat)),
{
    if chunk_size == 0 {
        return Err(TransferError::ZeroChunkSize);
    }
    let len = data.len();
    let mut wire: Vec<u8> = Vec::new();
    let mut pos: usize = 0;
    let ghost mut sent: Seq<Seq<u8>> = Seq::empty();
    assert(data@.subrange(0, len as int) =~= data@);
    assert(sent + split_chunks(data@, chunk_size as nat) =~= split_chunks(data@, chunk_size as nat));
    while pos < len
        invariant
            len == data@.len(),
            chunk_size > 0,
            pos <= len,
            split_chunks(data@, chunk_size as nat) == sent + split_chunks(
                data@.subrange(pos as int, len as int),
                chunk_size as nat,
            ),
            wire@ == frames_wire(sent),
        decreases len - pos,
    {
        let left = len - pos;
        let n: usize = if (left as u64) < chunk_size {
            left
        } else {
            chunk_size as usize
        };
        let piece = vstd::slice::slice_subrange(data, pos, pos + n);
        let frame = encode_frame(piece);
        proof {
            let rest = data@.subrange(pos as int, len as int);
            assert(rest.subrange(0, n as int) =~= piece@);
            assert(rest.subrange(n as int, rest.len() as int) =~= data@.subrange(
                pos + n,
                len as int,
            ));
            assert(split_chunks(rest, chunk_size as nat) =~= seq![piece@] + split_chunks(
                data@.subrange(pos + n, len as int),
                chunk_size as nat,
            ));
            lemma_frames_wire_push(sent, piece@);
            assert(sent + split_chunks(rest, chunk_size as nat) =~= sent.push(piece@)
                + split_chunks(data@.subrange(pos + n, len as int), chunk_size as nat));
            sent = sent.push(piece@);
        }
        append_bytes(&mut wire, frame.as_slice());
        pos = pos + n;
    }
    proof {
        assert(split_chunks(data@.subrange(pos as int, len as int), chunk_size as nat)
            =~= Seq::<Seq<u8>>::empty());
        assert(sent =~= split_chunks(data@, chunk_size as nat));
        lemma_frames_wire_push(sent, Seq::empty());
    }
    let end = encode_frame(&[]);
    append_bytes(&mut wire, end.as_slice());
    Ok(wire)
}

/// `r` read from offset `pos` of a stream, seen from the stream's start,
/// after the payload bytes `acc` already taken.
spec fn shifted(acc: Seq<u8>, pos: nat, r: Option<(Seq<u8>, nat)>) -> Option<(Seq<u8>, nat)> {
    match r {
        None => None,
        Some((d, used)) => Some((acc + d, pos + used)),
    }
}

/// Reads frames from the start of `wire` up to the sentinel, as a receiver
/// does: the payloads joined, and the number of bytes up to and including
/// the sentinel; fails when the stream ends inside a frame or before the
/// sentinel.
pub fn decode_sentinel(wire: &[u8]) -> (r: Result<(Vec<u8>, usize), TransferError>)
    ensures
        match r {
            Ok((d, used)) => parse_sentinel(wire@) == Some((d@, used as nat)),
            Err(e) => e == TransferError::Framing && parse_sentinel(wire@) is None,
        },
{
    let len = wire.len();
    let mut data: Vec<u8> = Vec::new();
    let mut pos: usize = 0;
    assert(wire@.subrange(0, len as int) =~= wire@);
    assert(data@ + Seq::<u8>::empty() =~= Seq::<u8>::empty());
    assert(parse_sentinel(wire@) == shifted(data@, 0, parse_sentinel(wire@))) by {
        match parse_sentinel(wire@) {
            None => {},
            Some((d, u)) => {
                assert(data@ + d =~= d);
            },
        }
    }
    loop
        invariant
            len == wire@.len(),
            pos <= len,
            parse_sentinel(wire@) == shifted(
                data@,
                pos as nat,
                parse_sentinel(wire@.subrange(pos as int, len as int)),
            ),
        decreases len - pos,
    {
        let ghost rest = wire@.subrange(pos as int, len as int);
        if len - pos < HEADER_LEN {
            return Err(TransferError::Framing);
        }
        let n = read_u64_at(wire, pos);
        assert(rest.subrange(0, 8) =~= wire@.subrange(pos as int, pos + 8));
        if n == 0 {
            assert(data@ + Seq::<u8>::empty() =~= data@);
            return Ok((data, pos + 8));
        }
        if (((len - pos) - 8) as u64) < n {
            return Err(TransferError::Framing);
        }
        let start = pos + 8;
        let end = start + n as usize;
        let ghost before = data@;
        append_bytes(&mut data, vstd::slice::slice_subrange(wire, start, end));
        proof {
            let payload = wire@.subrange(start as int, end as int);
            assert(rest.subrange(8, 8 + n as int) =~= payload);
            assert(rest.subrange(8 + n as int, rest.len() as int) =~= wire@.subrange(
                end as int,
                len as int,
            ));
            match parse_sentinel(wire@.subrange(end as int, len as int)) {
                None => {},
                Some((d, u)) => {
                    assert(before + (payload + d) =~= (before + payload) + d);
                },
            }
        }
        pos = end;
    }
}

/// Cutting data into chunks loses and adds nothing, and every piece holds
/// between one and `chunk` bytes.
pub proof fn lemma_split_chunks(data: Seq<u8>, chunk: nat)
    requires
        chunk > 0,
    ensures
        split_chunks(data, chunk).flatten() == data,
        forall|i: int|
            0 <= i < split_chunks(data, chunk).len() ==> 0 < #[trigger] split_chunks(
                data,
                chunk,
            )[i].len() <= chunk,
    decreases data.len(),
{
    let c = split_chunks(data, chunk);
    if data.len() == 0 {
    } else if data.len() <= chunk {
        assert(c.drop_first() =~= Seq::<Seq<u8>>::empty());
        assert(Seq::<Seq<u8>>::empty().flatten() =~= Seq::<u8>::empty());
        assert(c.first() == data);
        assert(c.flatten() =~= data);
    } else {
        let tail = data.subrange(chunk as int, data.len() as int);
        lemma_split_chunks(tail, chunk);
        assert(c.drop_first() =~= split_chunks(tail, chunk));
        assert(c.flatten() =~= data);
        assert forall|i: int| 0 <= i < c.len() implies 0 < #[trigger] c[i].len() <= chunk by {
            if i > 0 {
                assert(c[i] == split_chunks(tail, chunk)[i - 1]);
            }
        }
    }
}

/// A receiver that reads frames up to the sentinel gets back exactly the
/// payloads that were sent, joined, and stops right after the sentinel,
/// whatever the payloads' sizes and whatever follows on the stream.
pub proof fn lemma_frames_round_trip(frames: Seq<Seq<u8>>, rest: Seq<u8>)
    requires
        forall|i: int| 0 <= i < frames.len() ==> 0 < #[trigger] frames[i].len() <= u64::MAX,
    ensures
        parse_sentinel(frames_wire(frames.push(Seq::empty())) + rest) == Some(
            (frames.flatten(), frames_wire(frames.push(Seq::empty())).len()),
        ),
    decreases frames.len(),
{
    let all = frames.push(Seq::<u8>::empty());
    let w = frames_wire(all) + rest;
    if frames.len() == 0 {
        assert(all.drop_first() =~= Seq::<Seq<u8>>::empty());
        lemma_u64_header(0);
        assert(frame_bytes(all[0]) =~= crate::codec::u64_header(0));
        assert(frames_wire(all.drop_first()) == Seq::<u8>::empty());
        assert(frames_wire(all) =~= crate::codec::u64_header(0));
        assert(w.subrange(0, 8) =~= crate::codec::u64_header(0));
    } else {
        let f0 = frames[0];
        let tail = frames.drop_first();
        assert(all.drop_first() =~= tail.push(Seq::<u8>::empty()));
        assert(forall|i: int| 0 <= i < tail.len() ==> #[trigger] tail[i] == frames[i + 1]);
        lemma_frames_round_trip(tail, rest);
        let n = f0.len();
        lemma_u64_header(n as u64);
        let tw = frames_wire(tail.push(Seq::<u8>::empty()));
        assert(frames_wire(all) == frame_bytes(f0) + tw);
        assert(w =~= crate::codec::u64_header(n as u64) + (f0 + (tw + rest)));
        assert(w.subrange(0, 8) =~= crate::codec::u64_header(n as u64));
        assert(w.subrange(8, 8 + n as int) =~= f0);
        assert(w.subrange(8 + n as int, w.len() as int) =~= tw + rest);
    }
}

/// For any chunk size of at least one byte, the receiver recovers exactly the
/// bytes the sender sent, and stops exactly at the end of what it sent.
pub proof fn lemma_sentinel_round_trip(data: Seq<u8>, chunk: nat)
    requires
        0 < chunk <= u64::MAX,
    ensures
        parse_sentinel(frames_wire(sentinel_frames(data, chunk))) == Some(
            (data, frames_wire(sentinel_frames(data, chunk)).len()),
        ),
{
    lemma_split_chunks(data, chunk);
    let frames = split_chunks(data, chunk);
    lemma_frames_round_trip(frames, Seq::empty());
    assert(frames_wire(sentinel_frames(data, chunk)) + Seq::<u8>::empty() =~= frames_wire(
        sentinel_frames(data, chunk),
    ));
}

/// Exactly one frame a sender emits is empty, the sentinel, and it is the
/// last; every other frame holds between one and `chunk` bytes.
pub proof fn lemma_sentinel_unique(data: Seq<u8>, chunk: nat)
    requires
        chunk > 0,
    ensures
        sentinel_frames(data, chunk).last().len() == 0,
        forall|i: int|
            0 <= i < sentinel_frames(data, chunk).len() ==> (#[trigger] sentinel_frames(
                data,
                chunk,
            )[i].len() == 0 <==> i == sentinel_frames(data, chunk).len() - 1),
        forall|i: int|
            0 <= i < sentinel_frames(data, chunk).len() - 1 ==> #[trigger] sentinel_frames(
                data,
                chunk,
            )[i].len() <= chunk,
{
    lemma_split_chunks(data, chunk);
    let c = split_chunks(data, chunk);
    assert forall|i: int| 0 <= i < c.len() implies #[trigger] sentinel_frames(data, chunk)[i]
        == c[i] by {}
}

} // verus!
