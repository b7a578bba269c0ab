//! The frame format of a log file: each frame is a length, four bytes with
//! the most significant first, and that many bytes.

use vstd::prelude::*;

use crate::models::{lemma_views_push, views};
use crate::versioned::error::{VersionedError, VersionedFailure};

verus! {

/// The four bytes of a number, most significant first.
pub open spec fn big_endian(value: u32) -> Seq<u8> {
    seq![
        (value / 0x100_0000) as u8,
        (value / 0x1_0000 % 0x100) as u8,
        (value / 0x100 % 0x100) as u8,
        (value % 0x100) as u8,
    ]
}

/// The number that four bytes hold from `at` on, most significant first.
pub open spec fn number_at(data: Seq<u8>, at: int) -> int {
    data[at] * 0x100_0000 + data[at + 1] * 0x1_0000 + data[at + 2] * 0x100 + data[at + 3]
}

/// A frame's bytes: the length, then the body. The length is taken modulo
/// the range of its four bytes.
pub open spec fn frame(body: Seq<u8>) -> Seq<u8> {
    big_endian(body.len() as u32) + body
}

/// Frames one after the other.
pub open spec fn framed_bodies(bodies: Seq<Seq<u8>>) -> Seq<u8>
    decreases bodies.len(),
{
    if bodies.len() == 0 {
        Seq::empty()
    } else {
        frame(bodies[0]) + framed_bodies(bodies.drop_first())
    }
}

/// The frame that starts at `offset`: where its body ends, or why there is
/// none.
pub open spec fn frame_end(data: Seq<u8>, offset: int) -> Result<int, VersionedFailure> {
    if offset + 4 > data.len() {
        Err(VersionedFailure::TruncatedFrame { offset: offset as u64 })
    } else if offset + 4 + number_at(data, offset) > data.len() {
        Err(VersionedFailure::TruncatedFrame { offset: (offset + 4) as u64 })
    } else {
        Ok(offset + 4 + number_at(data, offset))
    }
}

/// The bodies of the frames from `offset` on, up to the first failure.
pub open spec fn bodies_from(data: Seq<u8>, offset: int) -> Result<
    Seq<Seq<u8>>,
    VersionedFailure,
>
    decreases data.len() - offset,
{
    if offset < 0 || offset >= data.len() {
        Ok(Seq::empty())
    } else {
        match frame_end(data, offset) {
            Err(failure) => Err(failure),
            Ok(end) => if end <= offset {
                Ok(Seq::empty())
            } else {
                match bodies_from(data, end) {
                    Err(failure) => Err(failure),
                    Ok(rest) => Ok(seq![data.subrange(offset + 4, end)] + rest),
                }
            },
        }
    }
}

/// The bytes of one frame.
pub fn frame_of(body: &[u8]) -> (bytes: Vec<u8>)
    ensures
        bytes@ == frame(body@),
{
    let len: usize = body.len();
    let length: u32 = #[verifier::truncate] (len as u32);
    let mut bytes: Vec<u8> = Vec::new();
    bytes.push((length / 0x100_0000) as u8);
    bytes.push((length / 0x1_0000 % 0x100) as u8);
    bytes.push((length / 0x100 % 0x100) as u8);
    bytes.push((length % 0x100) as u8);
    assert(bytes@ =~= big_endian(length));
    bytes.extend_from_slice(body);
    assert(bytes@ =~= frame(body@));
    bytes
}

/// The body of the frame at `offset` and where the next frame starts, or
/// none at the end of the bytes.
pub fn next_frame(data: &[u8], offset: usize) -> (outcome: Result<
    Option<(Vec<u8>, usize)>,
    VersionedError,
>)
    requires
        offset <= data@.len(),
    ensures
        match outcome {
            Ok(None) => offset == data@.len(),
            Ok(Some(found)) => offset < data@.len() && frame_end(data@, offset as int) == Ok::<
                int,
                VersionedFailure,
            >(found.1 as int) && found.0@ == data@.subrange(offset + 4, found.1 as int),
            Err(error) => offset < data@.len() && frame_end(data@, offset as int) == Err::<
                int,
                VersionedFailure,
            >(error@),
        },
{
    let len: usize = data.len();
    if offset == len {
        return Ok(None);
    }
    if len - offset < 4 {
        return Err(VersionedError::TruncatedFrame { offset: offset as u64 });
    }
    let length: u64 = data[offset] as u64 * 0x100_0000 + data[offset + 1] as u64 * 0x1_0000
        + data[offset + 2] as u64 * 0x100 + data[offset + 3] as u64;
    assert(length == number_at(data@, offset as int));
    let start: usize = offset + 4;
    if ((len - start) as u64) < length {
        return Err(VersionedError::TruncatedFrame { offset: start as u64 });
    }
    let end: usize = start + length as usize;
    let mut body: Vec<u8> = Vec::new();
    let mut at: usize = start;
    while at < end
        invariant
            start <= at <= end <= data@.len(),
            body@ == data@.subrange(start as int, at as int),
        decreases end - at,
    {
        body.push(data[at]);
        at = at + 1;
        assert(body@ =~= data@.subrange(start as int, at as int));
    }
    Ok(Some((body, end)))
}

/// The bodies of all frames.
pub fn split_frames(data: &[u8]) -> (outcome: Result<Vec<Vec<u8>>, VersionedError>)
    ensures
        match outcome {
            Ok(bodies) => bodies_from(data@, 0) == Ok::<Seq<Seq<u8>>, VersionedFailure>(
                views(bodies@),
            ),
            Err(error) => bodies_from(data@, 0) == Err::<Seq<Seq<u8>>, VersionedFailure>(error@),
        },
{
    let mut bodies: Vec<Vec<u8>> = Vec::new();
    let mut offset: usize = 0;
    assert(views(bodies@) =~= Seq::empty());
    assert(match bodies_from(data@, 0) {
        Ok(rest) => Seq::<Seq<u8>>::empty() + rest =~= rest,
        Err(_) => true,
    });
    loop
        invariant
            offset <= data@.len(),
            bodies_from(data@, 0) == match bodies_from(data@, offset as int) {
                Ok(rest) => Ok::<Seq<Seq<u8>>, VersionedFailure>(views(bodies@) + rest),
                Err(failure) => Err(failure),
            },
        decreases data@.len() - offset,
    {
        match next_frame(data, offset) {
            Err(error) => {
                return Err(error);
            },
            Ok(None) => {
                assert(views(bodies@) + Seq::<Seq<u8>>::empty() =~= views(bodies@));
                return Ok(bodies);
            },
            Ok(Some(found)) => {
                let ghost before = views(bodies@);
                let ghost body = found.0@;
                proof {
                    lemma_views_push(bodies@, found.0);
                    match bodies_from(data@, found.1 as int) {
                        Ok(rest) => {
                            assert(before + (seq![body] + rest) =~= before.push(body) + rest);
                        },
                        Err(_) => {},
                    }
                }
                bodies.push(found.0);
                offset = found.1;
            },
        }
    }
}

/// Four bytes hold the number they were made from.
proof fn lemma_number(value: u32, rest: Seq<u8>)
    ensures
        number_at(big_endian(value) + rest, 0) == value,
{
    let data = big_endian(value) + rest;
    assert(data[0] == big_endian(value)[0]);
    assert(data[1] == big_endian(value)[1]);
    assert(data[2] == big_endian(value)[2]);
    assert(data[3] == big_endian(value)[3]);
    assert(value / 0x100_0000 < 0x100);
    assert(value == (value / 0x100_0000) * 0x100_0000 + (value / 0x1_0000 % 0x100) * 0x1_0000 + (
    value / 0x100 % 0x100) * 0x100 + value % 0x100);
}

/// Reading frames from an offset is reading what follows it.
proof fn lemma_bodies_shift(head: Seq<u8>, tail: Seq<u8>, at: int)
    requires
        0 <= at,
        head.len() + tail.len() <= u64::MAX,
        bodies_from(tail, at) is Ok,
    ensures
        bodies_from(head + tail, head.len() + at) == bodies_from(tail, at),
    decreases tail.len() - at,
{
    let data = head + tail;
    let offset = head.len() + at;
    if at < tail.len() && at + 4 <= tail.len() {
        assert(data[offset] == tail[at]);
        assert(data[offset + 1] == tail[at + 1]);
        assert(data[offset + 2] == tail[at + 2]);
        assert(data[offset + 3] == tail[at + 3]);
        let end = at + 4 + number_at(tail, at);
        if end <= tail.len() {
            lemma_bodies_shift(head, tail, end);
            assert(data.subrange(offset + 4, head.len() + end) =~= tail.subrange(at + 4, end));
        }
    }
}

/// A frame in front of others is read before them.
proof fn lemma_front_frame(body: Seq<u8>, tail: Seq<u8>)
    requires
        body.len() <= u32::MAX,
        4 + body.len() + tail.len() <= u64::MAX,
        bodies_from(tail, 0) is Ok,
    ensures
        bodies_from(frame(body) + tail, 0) == Ok::<Seq<Seq<u8>>, VersionedFailure>(
            seq![body] + bodies_from(tail, 0)->Ok_0,
        ),
{
    let data = frame(body) + tail;
    assert(data =~= big_endian(body.len() as u32) + (body + tail));
    lemma_number(body.len() as u32, body + tail);
    lemma_bodies_shift(frame(body), tail, 0);
    assert(data.subrange(4, 4 + body.len() as int) =~= body);
}

/// Splitting what was framed gives the bodies back.
pub proof fn lemma_frames_round_trip(bodies: Seq<Seq<u8>>)
    requires
        forall|i: int| 0 <= i < bodies.len() ==> (#[trigger] bodies[i]).len() <= u32::MAX,
        framed_bodies(bodies).len() <= u64::MAX,
    ensures
        bodies_from(framed_bodies(bodies), 0) == Ok::<Seq<Seq<u8>>, VersionedFailure>(bodies),
    decreases bodies.len(),
{
    if bodies.len() == 0 {
        assert(bodies =~= Seq::empty());
    } else {
        let rest = bodies.drop_first();
        assert forall|i: int| 0 <= i < rest.len() implies (#[trigger] rest[i]).len()
            <= u32::MAX by {
            assert(rest[i] == bodies[i + 1]);
        }
        lemma_frames_round_trip(rest);
        lemma_front_frame(bodies[0], framed_bodies(rest));
        assert(seq![bodies[0]] + rest =~= bodies);
    }
}

/// Frames written after other frames are read after them.
pub proof fn lemma_frames_append(bodies: Seq<Seq<u8>>, body: Seq<u8>)
    ensures
        framed_bodies(bodies.push(body)) == framed_bodies(bodies) + frame(body),
    decreases bodies.len(),
{
    if bodies.len() == 0 {
        reveal_with_fuel(framed_bodies, 2);
        assert(bodies.push(body).drop_first() =~= Seq::empty());
        assert(framed_bodies(bodies.push(body)) =~= framed_bodies(bodies) + frame(body));
    } else {
        lemma_frames_append(bodies.drop_first(), body);
        assert(bodies.push(body).drop_first() =~= bodies.drop_first().push(body));
        assert(framed_bodies(bodies.push(body)) =~= framed_bodies(bodies) + frame(body));
    }
}

} // verus!
