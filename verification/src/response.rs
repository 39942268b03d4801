//! Framing a response: the header block, the buffered message, and the
//! frames of a streamed one.

use crate::bytes::{append, copy_range};
use vstd::prelude::*;
use vstd::string::*;

verus! {

/// The number of body bytes in one frame of a streamed response.
pub const CHUNK: usize = 500;

/// The status line and the header fields up to the content length.
pub open spec fn status_block() -> Seq<u8> {
    "HTTP/1.1 200 OK\nContent-Type: text/html; charset=UTF-8\nContent-Length: ".spec_bytes()
}

/// The blank line that ends the header block.
pub open spec fn blank_line() -> Seq<u8> {
    seq![13u8, 10u8, 13u8, 10u8]
}

/// `n` in decimal digits, without leading zeros.
pub open spec fn decimal(n: nat) -> Seq<u8>
    decreases n,
{
    if n < 10 {
        seq![(48 + n) as u8]
    } else {
        decimal(n / 10).push((48 + n % 10) as u8)
    }
}

/// The header block of a response with a body of `len` bytes.
pub open spec fn header_of(len: nat) -> Seq<u8> {
    status_block() + decimal(len) + blank_line()
}

/// The whole response with `body`, as one message.
pub open spec fn buffered_of(body: Seq<u8>) -> Seq<u8> {
    header_of(body.len()) + body
}

/// `body` cut into pieces of `size` bytes, the last one shorter where the
/// length is no multiple of `size`.
pub open spec fn chunks_of(body: Seq<u8>, size: nat) -> Seq<Seq<u8>>
    decreases body.len(),
{
    if body.len() == 0 || size == 0 {
        Seq::empty()
    } else if body.len() <= size {
        seq![body]
    } else {
        seq![body.take(size as int)] + chunks_of(body.skip(size as int), size)
    }
}

/// The frames of the streamed response with `body`: the header block, then
/// the body in pieces of `CHUNK` bytes.
pub open spec fn streamed_of(body: Seq<u8>) -> Seq<Seq<u8>> {
    seq![header_of(body.len())] + chunks_of(body, CHUNK as nat)
}

/// The bytes of `frames`, one after the other.
pub open spec fn joined(frames: Seq<Seq<u8>>) -> Seq<u8>
    decreases frames.len(),
{
    if frames.len() == 0 {
        Seq::empty()
    } else {
        frames[0] + joined(frames.skip(1))
    }
}

/// The view of a list of frames.
pub open spec fn frames_view(frames: Seq<Vec<u8>>) -> Seq<Seq<u8>> {
    Seq::new(frames.len(), |i: int| frames[i]@)
}

/// The pieces of a body, put together again, are the body.
pub proof fn lemma_chunks_join(body: Seq<u8>, size: nat)
    requires
        size > 0,
    ensures
        joined(chunks_of(body, size)) == body,
    decreases body.len(),
{
    let pieces = chunks_of(body, size);
    if body.len() == 0 {
        assert(joined(pieces) =~= body);
    } else if body.len() <= size {
        assert(pieces[0] == body);
        assert(pieces.skip(1) =~= Seq::<Seq<u8>>::empty());
        assert(joined(pieces.skip(1)) =~= Seq::<u8>::empty());
        assert(joined(pieces) =~= body);
    } else {
        let rest = chunks_of(body.skip(size as int), size);
        lemma_chunks_join(body.skip(size as int), size);
        assert(pieces[0] == body.take(size as int));
        assert(pieces.skip(1) =~= rest);
        assert(body.take(size as int) + body.skip(size as int) =~= body);
    }
}

/// Streaming a body sends, frame after frame, the very bytes that the
/// buffered response holds.
pub proof fn lemma_streamed_is_buffered(body: Seq<u8>)
    ensures
        joined(streamed_of(body)) == buffered_of(body),
{
    let frames = streamed_of(body);
    lemma_chunks_join(body, CHUNK as nat);
    assert(frames[0] == header_of(body.len()));
    assert(frames.skip(1) =~= chunks_of(body, CHUNK as nat));
}

/// `n` in decimal digits.
pub fn decimal_bytes(n: u64) -> (r: Vec<u8>)
    ensures
        r@ == decimal(n as nat),
    decreases n,
{
    if n < 10 {
        let digit: u8 = (48 + n) as u8;
        let out = vec![digit];
        proof {
            assert(out@ =~= decimal(n as nat));
        }
        out
    } else {
        let mut out = decimal_bytes(n / 10);
        let digit: u8 = (48 + n % 10) as u8;
        out.push(digit);
        out
    }
}

/// The header block of a response with a body of `len` bytes.
pub fn header(len: u64) -> (r: Vec<u8>)
    ensures
        r@ == header_of(len as nat),
{
    let mut out: Vec<u8> = Vec::new();
    append(
        &mut out,
        "HTTP/1.1 200 OK\nContent-Type: text/html; charset=UTF-8\nContent-Length: ".as_bytes(),
    );
    let digits = decimal_bytes(len);
    append(&mut out, digits.as_slice());
    let blank = vec![13u8, 10u8, 13u8, 10u8];
    proof {
        assert(blank@ =~= blank_line());
    }
    append(&mut out, blank.as_slice());
    proof {
        assert(out@ =~= header_of(len as nat));
    }
    out
}

/// The whole response with `body`, for one write.
pub fn buffered_message(body: &[u8]) -> (r: Vec<u8>)
    ensures
        r@ == buffered_of(body@),
{
    let mut out = header(body.len() as u64);
    append(&mut out, body);
    out
}

/// `body` cut into pieces of `size` bytes.
pub fn chunks(body: &[u8], size: usize) -> (r: Vec<Vec<u8>>)
    requires
        size > 0,
    ensures
        frames_view(r@) == chunks_of(body@, size as nat),
{
    let mut out: Vec<Vec<u8>> = Vec::new();
    let mut at: usize = 0;
    proof {
        assert(body@.skip(0) =~= body@);
        assert(frames_view(out@) + chunks_of(body@.skip(0), size as nat) =~= chunks_of(
            body@,
            size as nat,
        ));
    }
    while at < body.len()
        invariant
            size > 0,
            at <= body.len(),
            frames_view(out@) + chunks_of(body@.skip(at as int), size as nat) == chunks_of(
                body@,
                size as nat,
            ),
        decreases body.len() - at,
    {
        let left: usize = body.len() - at;
        let end: usize = if left <= size {
            body.len()
        } else {
            at + size
        };
        let piece = copy_range(body, at, end);
        let ghost before = frames_view(out@);
        let ghost rest = body@.skip(at as int);
        out.push(piece);
        proof {
            assert(frames_view(out@) =~= before.push(piece@));
            if left <= size {
                assert(piece@ =~= rest);
                assert(body@.skip(end as int).len() == 0);
                assert(before.push(piece@) + chunks_of(body@.skip(end as int), size as nat)
                    =~= before + chunks_of(rest, size as nat));
            } else {
                assert(piece@ =~= rest.take(size as int));
                assert(rest.skip(size as int) =~= body@.skip(end as int));
                assert(before.push(piece@) + chunks_of(body@.skip(end as int), size as nat)
                    =~= before + chunks_of(rest, size as nat));
            }
        }
        at = end;
    }
    proof {
        assert(body@.skip(at as int).len() == 0);
        assert(frames_view(out@) + chunks_of(body@.skip(at as int), size as nat) =~= frames_view(
            out@,
        ));
    }
    out
}

/// The frames of the streamed response with `body`: the header block, then
/// the body in pieces of `CHUNK` bytes. Written one after the other they are
/// the buffered response.
pub fn stream_message(body: &[u8]) -> (r: Vec<Vec<u8>>)
    ensures
        frames_view(r@) == streamed_of(body@),
        joined(frames_view(r@)) == buffered_of(body@),
{
    let mut out: Vec<Vec<u8>> = Vec::new();
    let head = header(body.len() as u64);
    out.push(head);
    let mut pieces = chunks(body, CHUNK);
    let ghost first = frames_view(out@);
    let ghost rest = frames_view(pieces@);
    out.append(&mut pieces);
    proof {
        assert(first =~= seq![header_of(body@.len())]);
        assert(frames_view(out@) =~= first + rest);
        lemma_streamed_is_buffered(body@);
    }
    out
}

} // verus!
