//! Framing: four bytes of length, highest first, and as many bytes of body.

use vstd::prelude::*;

use crate::signal::MAX_SIZE;

verus! {

/// Length of a frame's header, in bytes.
pub const HEADER_LEN: usize = 4;

/// Framing errors.
#[derive(Debug)]
pub enum FrameError {
    /// The underlying transport failed, or ended inside a body.
    Io(String),
    /// The peer closed the connection.
    Closed,
    /// The frame claims a length beyond the protocol maximum. This is decided
    /// before anything is allocated for the body.
    TooLarge {
        /// Length that the header claimed.
        claimed: usize,
        /// The protocol maximum.
        max: usize,
    },
    /// The body is not a signal.
    Malformed(String),
}

/// The length that a header claims.
pub open spec fn claimed_len(header: Seq<u8>) -> int {
    header[0] as int * 0x100_0000 + header[1] as int * 0x1_0000 + header[2] as int * 0x100
        + header[3] as int
}

/// Whether a length is one that a body may have.
pub open spec fn len_allowed(len: int) -> bool {
    0 < len <= MAX_SIZE
}

/// The length of the body that a header announces.
///
/// To reserve room on the strength of a claimed length would let a small
/// message use up the memory, so the claim is checked first.
pub fn body_len(header: &[u8]) -> (r: Result<usize, FrameError>)
    requires
        header@.len() == HEADER_LEN,
    ensures
        match r {
            Ok(n) => n == claimed_len(header@) && len_allowed(n as int),
            Err(FrameError::TooLarge { claimed, max }) => claimed == claimed_len(header@)
                && claimed > MAX_SIZE && max == MAX_SIZE,
            Err(FrameError::Malformed(_)) => claimed_len(header@) == 0,
            Err(_) => false,
        },
{
    let claimed: u32 = header[0] as u32 * 0x100_0000 + header[1] as u32 * 0x1_0000 + header[2] as u32
        * 0x100 + header[3] as u32;
    let claimed: usize = claimed as usize;
    if claimed > MAX_SIZE {
        return Err(FrameError::TooLarge { claimed, max: MAX_SIZE });
    }
    if claimed == 0 {
        return Err(FrameError::Malformed("zero-length frame".to_string()));
    }
    Ok(claimed)
}

/// A frame around a body.
pub open spec fn framed(body: Seq<u8>) -> Seq<u8> {
    let n = body.len();
    seq![
        (n / 0x100_0000) as u8,
        (n / 0x1_0000 % 0x100) as u8,
        (n / 0x100 % 0x100) as u8,
        (n % 0x100) as u8,
    ] + body
}

/// Put a frame around a body. A body that is longer than a signal may be is
/// refused.
pub fn write_frame(body: &Vec<u8>) -> (r: Result<Vec<u8>, FrameError>)
    ensures
        match r {
            Ok(frame) => body@.len() <= MAX_SIZE && frame@ == framed(body@),
            Err(FrameError::TooLarge { claimed, max }) => claimed == body@.len() && claimed
                > MAX_SIZE && max == MAX_SIZE,
            Err(_) => false,
        },
{
    let n: usize = body.len();
    if n > MAX_SIZE {
        return Err(FrameError::TooLarge { claimed: n, max: MAX_SIZE });
    }
    let mut out: Vec<u8> = Vec::new();
    out.push((n / 0x100_0000) as u8);
    out.push((n / 0x1_0000 % 0x100) as u8);
    out.push((n / 0x100 % 0x100) as u8);
    out.push((n % 0x100) as u8);
    let mut i: usize = 0;
    let ghost header = out@;
    assert(header =~= header + body@.take(0));
    while i < body.len()
        invariant
            i <= body@.len(),
            out@ == header + body@.take(i as int),
        decreases body@.len() - i,
    {
        assert(body@.take(i + 1) =~= body@.take(i as int).push(body@[i as int]));
        out.push(body[i]);
        i = i + 1;
        assert(out@ =~= header + body@.take(i as int));
    }
    assert(body@.take(body@.len() as int) =~= body@);
    assert(out@ =~= framed(body@));
    Ok(out)
}

/// What one frame of a buffer gives: its body and how many bytes it took.
#[derive(Debug)]
pub struct Unframed {
    /// The body.
    pub body: Vec<u8>,
    /// Bytes that the frame took.
    pub used: usize,
}

/// Take the frame that starts at a place in a buffer.
///
/// A buffer that ends within the header is closed; one that ends within the
/// body has failed.
pub fn read_frame(buffer: &Vec<u8>, at: usize) -> (r: Result<Unframed, FrameError>)
    requires
        at <= buffer@.len(),
    ensures
        ({
            let rest = buffer@.skip(at as int);
            match r {
                Ok(frame) => rest.len() >= HEADER_LEN && len_allowed(claimed_len(rest))
                    && frame.body@ == rest.subrange(4, 4 + claimed_len(rest)) && frame.used == 4
                    + claimed_len(rest) && frame.used <= rest.len(),
                Err(FrameError::Closed) => rest.len() < HEADER_LEN,
                Err(FrameError::TooLarge { claimed, max }) => rest.len() >= HEADER_LEN && claimed
                    == claimed_len(rest) && claimed > MAX_SIZE && max == MAX_SIZE,
                Err(FrameError::Malformed(_)) => rest.len() >= HEADER_LEN && claimed_len(rest) == 0,
                Err(FrameError::Io(_)) => rest.len() >= HEADER_LEN && len_allowed(claimed_len(rest))
                    && rest.len() < 4 + claimed_len(rest),
            }
        }),
{
    let left: usize = buffer.len() - at;
    if left < HEADER_LEN {
        return Err(FrameError::Closed);
    }
    let mut header: Vec<u8> = Vec::new();
    header.push(buffer[at]);
    header.push(buffer[at + 1]);
    header.push(buffer[at + 2]);
    header.push(buffer[at + 3]);
    let ghost rest = buffer@.skip(at as int);
    assert(header@ =~= rest.take(4));
    assert(claimed_len(header@) == claimed_len(rest));
    let len: usize = match body_len(header.as_slice()) {
        Ok(len) => len,
        Err(e) => return Err(e),
    };
    if left - HEADER_LEN < len {
        return Err(FrameError::Io("unexpected end of file".to_string()));
    }
    let start: usize = at + HEADER_LEN;
    let mut body: Vec<u8> = Vec::new();
    let mut i: usize = 0;
    assert(body@ =~= rest.subrange(4, 4));
    while i < len
        invariant
            i <= len,
            start == at + HEADER_LEN,
            start + len <= buffer@.len(),
            start + len <= usize::MAX,
            rest == buffer@.skip(at as int),
            body@ == rest.subrange(4, 4 + i),
        decreases len - i,
    {
        body.push(buffer[start + i]);
        i = i + 1;
        assert(body@ =~= rest.subrange(4, 4 + i));
    }
    Ok(Unframed { body, used: HEADER_LEN + len })
}

/// A frame read back gives the body it was put around, whatever follows it.
pub proof fn lemma_frame_round_trip(body: Seq<u8>, after: Seq<u8>)
    requires
        len_allowed(body.len() as int),
    ensures
        ({
            let buffer = framed(body) + after;
            &&& claimed_len(buffer) == body.len()
            &&& buffer.subrange(4, 4 + claimed_len(buffer)) == body
            &&& buffer.len() >= 4 + claimed_len(buffer)
            &&& buffer.skip(4 + claimed_len(buffer)) == after
        }),
{
    let buffer = framed(body) + after;
    let n = body.len() as int;
    assert(n / 0x100_0000 * 0x100_0000 + n / 0x1_0000 % 0x100 * 0x1_0000 + n / 0x100 % 0x100 * 0x100
        + n % 0x100 == n);
    assert(claimed_len(buffer) == n);
    assert(buffer.subrange(4, 4 + n) =~= body);
    assert(buffer.skip(4 + n) =~= after);
}

/// The frames of bodies, one after another.
pub open spec fn streamed(bodies: Seq<Seq<u8>>) -> Seq<u8>
    decreases bodies.len(),
{
    if bodies.len() == 0 {
        Seq::empty()
    } else {
        streamed(bodies.drop_last()) + framed(bodies.last())
    }
}

/// What follows the first frames of a stream is the frames of the other bodies.
proof fn lemma_rest_of_a_stream(bodies: Seq<Seq<u8>>, k: int)
    requires
        0 <= k <= bodies.len(),
    ensures
        streamed(bodies) == streamed(bodies.take(k)) + streamed(bodies.skip(k)),
    decreases bodies.len(),
{
    if k == bodies.len() {
        assert(bodies.take(k) =~= bodies);
        assert(bodies.skip(k).len() == 0);
        assert(streamed(bodies) =~= streamed(bodies) + streamed(bodies.skip(k)));
    } else {
        let front = bodies.drop_last();
        lemma_rest_of_a_stream(front, k);
        assert(front.take(k) =~= bodies.take(k));
        assert(front.skip(k) =~= bodies.skip(k).drop_last());
        assert(bodies.skip(k).last() == bodies.last());
        assert(streamed(bodies) =~= streamed(bodies.take(k)) + streamed(bodies.skip(k)));
    }
}

/// Frames stream in order: where the first `k` have been taken from a stream,
/// the next one gives body `k` and leaves the frames that follow, and where all
/// have been taken nothing is left.
pub proof fn lemma_frames_stream_in_order(bodies: Seq<Seq<u8>>, k: int)
    requires
        forall|i: int| 0 <= i < bodies.len() ==> len_allowed((#[trigger] bodies[i]).len() as int),
        0 <= k <= bodies.len(),
    ensures
        ({
            let rest = streamed(bodies).skip(streamed(bodies.take(k)).len() as int);
            if k == bodies.len() {
                rest.len() == 0
            } else {
                &&& rest.len() >= HEADER_LEN
                &&& claimed_len(rest) == bodies[k].len()
                &&& len_allowed(claimed_len(rest))
                &&& rest.len() >= 4 + claimed_len(rest)
                &&& rest.subrange(4, 4 + claimed_len(rest)) == bodies[k]
                &&& streamed(bodies.take(k)).len() + 4 + claimed_len(rest) == streamed(
                    bodies.take(k + 1),
                ).len()
            }
        }),
{
    let taken = streamed(bodies.take(k));
    let rest = streamed(bodies).skip(taken.len() as int);
    lemma_rest_of_a_stream(bodies, k);
    assert(rest =~= streamed(bodies.skip(k)));
    if k < bodies.len() {
        let left = bodies.skip(k);
        lemma_rest_of_a_stream(left, 1);
        assert(left.take(1).drop_last() =~= Seq::<Seq<u8>>::empty());
        assert(left.take(1).last() == bodies[k]);
        assert(streamed(left.take(1).drop_last()) =~= Seq::<u8>::empty());
        assert(streamed(left.take(1)) =~= framed(bodies[k]));
        lemma_frame_round_trip(bodies[k], streamed(left.skip(1)));
        assert(bodies.take(k + 1).drop_last() =~= bodies.take(k));
        assert(bodies.take(k + 1).last() == bodies[k]);
    }
}

} // verus!
