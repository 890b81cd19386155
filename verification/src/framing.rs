//! The bytes of a chunked response: the header block, the frame around each
//! data chunk, and the terminal chunk, together with what a chunked decoder
//! reads back from them.

use vstd::prelude::*;
use vstd::slice::slice_to_vec;
use vstd::string::StringSliceAdditionalSpecFns;
use crate::hex::{encode_hex, hex_digits, hex_value, is_hex_digit, lemma_hex_digits_value};

verus! {

/// The status line and header block that opens every response.
pub const RESPONSE_HEADERS: &'static str =
    "HTTP/1.1 200 OK\r\nConnection: keep-alive\r\nContent-Type: application/octet-stream\r\nTransfer-Encoding: chunked\r\n\r\n";

/// The bytes of [`RESPONSE_HEADERS`].
pub open spec fn response_header_block() -> Seq<u8> {
    RESPONSE_HEADERS.spec_bytes()
}

/// Carriage return, line feed: the terminator of a size line and of a chunk.
pub open spec fn crlf() -> Seq<u8> {
    seq![0x0du8, 0x0au8]
}

/// The size line of a chunk of `size` bytes: the size in hexadecimal, then
/// the terminator.
pub open spec fn size_line(size: nat) -> Seq<u8> {
    hex_digits(size) + crlf()
}

/// A payload of `size` zero bytes.
pub open spec fn zero_payload(size: nat) -> Seq<u8> {
    Seq::new(size, |i: int| 0u8)
}

/// One chunk on the wire: the size line that declares the length of
/// `payload`, the payload itself, and the terminator.
pub open spec fn chunk_frame(payload: Seq<u8>) -> Seq<u8> {
    size_line(payload.len()) + payload + crlf()
}

/// The terminal chunk `0\r\n\r\n`: a chunk of size zero.
pub open spec fn terminal_marker() -> Seq<u8> {
    seq![0x30u8, 0x0du8, 0x0au8, 0x0du8, 0x0au8]
}

/// The frames of `chunks`, one after another.
pub open spec fn frames(chunks: Seq<Seq<u8>>) -> Seq<u8>
    decreases chunks.len(),
{
    if chunks.len() == 0 {
        Seq::empty()
    } else {
        chunk_frame(chunks.first()) + frames(chunks.drop_first())
    }
}

/// A complete chunked body: the frames of `chunks`, then the terminal chunk.
pub open spec fn encode_body(chunks: Seq<Seq<u8>>) -> Seq<u8> {
    frames(chunks) + terminal_marker()
}

/// Whether a terminator stands at index `i` of `s`.
pub open spec fn has_crlf_at(s: Seq<u8>, i: int) -> bool {
    0 <= i && i + 2 <= s.len() && s[i] == 0x0d && s[i + 1] == 0x0a
}

/// The number of hexadecimal digits that `s` starts with.
pub open spec fn hex_prefix_len(s: Seq<u8>) -> nat
    decreases s.len(),
{
    if s.len() > 0 && is_hex_digit(s.first()) {
        1 + hex_prefix_len(s.drop_first())
    } else {
        0
    }
}

/// What a chunked decoder reads from the front of `s`: a size line made of
/// hexadecimal digits, as many payload bytes as the line declares, and a
/// terminator. Gives the payload and the bytes that follow the chunk, or
/// `None` where `s` does not start with a well-formed chunk.
pub open spec fn decode_chunk(s: Seq<u8>) -> Option<(Seq<u8>, Seq<u8>)> {
    let digits = hex_prefix_len(s) as int;
    let size = hex_value(s.take(digits)) as int;
    let start = digits + 2;
    if digits > 0 && has_crlf_at(s, digits) && has_crlf_at(s, start + size) {
        Some((s.subrange(start, start + size), s.skip(start + size + 2)))
    } else {
        None
    }
}

/// What a chunked decoder reads from a whole body: the payloads of the data
/// chunks in order, up to a chunk of size zero, which must end the body.
pub open spec fn decode_body(s: Seq<u8>) -> Option<Seq<Seq<u8>>>
    decreases s.len(),
{
    match decode_chunk(s) {
        None => None,
        Some((payload, rest)) => {
            if payload.len() == 0 {
                if rest.len() == 0 {
                    Some(Seq::empty())
                } else {
                    None
                }
            } else if rest.len() < s.len() {
                match decode_body(rest) {
                    Some(more) => Some(seq![payload] + more),
                    None => None,
                }
            } else {
                None
            }
        },
    }
}

/// The terminal chunk is the frame of the empty payload.
pub proof fn lemma_terminal_is_empty_frame()
    ensures
        terminal_marker() == chunk_frame(Seq::empty()),
{
    assert(hex_digits(0) =~= seq![0x30u8]);
    assert(terminal_marker() =~= chunk_frame(Seq::empty()));
}

/// Appending a chunk appends its frame.
pub proof fn lemma_frames_push(chunks: Seq<Seq<u8>>, payload: Seq<u8>)
    ensures
        frames(chunks.push(payload)) == frames(chunks) + chunk_frame(payload),
    decreases chunks.len(),
{
    let longer = chunks.push(payload);
    if chunks.len() == 0 {
        assert(longer.drop_first() =~= Seq::<Seq<u8>>::empty());
        assert(frames(longer.drop_first()) =~= Seq::<u8>::empty());
        assert(frames(longer) =~= chunk_frame(payload));
        assert(frames(chunks) + chunk_frame(payload) =~= chunk_frame(payload));
    } else {
        lemma_frames_push(chunks.drop_first(), payload);
        assert(longer.drop_first() =~= chunks.drop_first().push(payload));
        assert(longer.first() == chunks.first());
        assert(frames(longer) =~= frames(chunks) + chunk_frame(payload));
    }
}

/// A numeral followed by a byte that is no digit is read back whole.
proof fn lemma_hex_prefix(numeral: Seq<u8>, rest: Seq<u8>)
    requires
        forall|i: int| 0 <= i < numeral.len() ==> is_hex_digit(#[trigger] numeral[i]),
        rest.len() > 0,
        !is_hex_digit(rest[0]),
    ensures
        hex_prefix_len(numeral + rest) == numeral.len(),
    decreases numeral.len(),
{
    let s = numeral + rest;
    if numeral.len() == 0 {
        assert(s.first() == rest[0]);
    } else {
        assert(s.first() == numeral[0]);
        assert(s.drop_first() =~= numeral.drop_first() + rest);
        lemma_hex_prefix(numeral.drop_first(), rest);
    }
}

/// The declared size matches the payload: a decoder that reads a frame,
/// whatever follows it, recovers exactly the payload that was framed and is
/// left with exactly what followed.
pub proof fn lemma_decode_chunk_frame(payload: Seq<u8>, rest: Seq<u8>)
    ensures
        decode_chunk(chunk_frame(payload) + rest) == Some((payload, rest)),
{
    let numeral = hex_digits(payload.len());
    let after = crlf() + payload + crlf() + rest;
    let s = chunk_frame(payload) + rest;
    lemma_hex_digits_value(payload.len());
    assert(s =~= numeral + after);
    assert(after[0] == 0x0d);
    lemma_hex_prefix(numeral, after);
    let digits = numeral.len() as int;
    assert(s.take(digits) =~= numeral);
    let start = digits + 2;
    let size = payload.len() as int;
    assert(has_crlf_at(s, digits));
    assert(has_crlf_at(s, start + size));
    assert(s.subrange(start, start + size) =~= payload);
    assert(s.skip(start + size + 2) =~= rest);
}

/// Round trip of a whole body: a decoder recovers every chunk of a body
/// whose data chunks are all non-empty, in order and byte for byte.
pub proof fn lemma_decode_body(chunks: Seq<Seq<u8>>)
    requires
        forall|i: int| 0 <= i < chunks.len() ==> (#[trigger] chunks[i]).len() > 0,
    ensures
        decode_body(encode_body(chunks)) == Some(chunks),
    decreases chunks.len(),
{
    let body = encode_body(chunks);
    if chunks.len() == 0 {
        lemma_terminal_is_empty_frame();
        lemma_decode_chunk_frame(Seq::empty(), Seq::empty());
        assert(body =~= chunk_frame(Seq::empty()) + Seq::<u8>::empty());
        assert(chunks =~= Seq::<Seq<u8>>::empty());
    } else {
        let head = chunks.first();
        let tail = chunks.drop_first();
        let rest = encode_body(tail);
        assert(body =~= chunk_frame(head) + rest);
        lemma_decode_chunk_frame(head, rest);
        assert forall|i: int| 0 <= i < tail.len() implies (#[trigger] tail[i]).len() > 0 by {
            assert(tail[i] == chunks[i + 1]);
        }
        lemma_decode_body(tail);
        assert(rest.len() < body.len());
        assert(seq![head] + tail =~= chunks);
    }
}

/// The status line and header block, as bytes to write.
pub fn response_headers() -> (out: Vec<u8>)
    ensures
        out@ == response_header_block(),
{
    slice_to_vec(RESPONSE_HEADERS.as_bytes())
}

/// The size line of a chunk of `size` bytes, as bytes to write.
pub fn chunk_size_line(size: usize) -> (out: Vec<u8>)
    ensures
        out@ == size_line(size as nat),
{
    let mut out = encode_hex(size);
    let ghost numeral = out@;
    out.push(0x0d);
    out.push(0x0a);
    assert(out@ =~= numeral + crlf());
    out
}

/// A payload buffer of `size` zero bytes.
pub fn payload(size: usize) -> (out: Vec<u8>)
    ensures
        out@ == zero_payload(size as nat),
{
    let out = vec![0u8; size];
    assert(out@ =~= zero_payload(size as nat));
    out
}

/// The terminator that follows a payload, as bytes to write.
pub fn chunk_end() -> (out: Vec<u8>)
    ensures
        out@ == crlf(),
{
    let out = vec![0x0du8, 0x0au8];
    assert(out@ =~= crlf());
    out
}

/// The terminal chunk, as bytes to write.
pub fn terminal_chunk() -> (out: Vec<u8>)
    ensures
        out@ == terminal_marker(),
{
    let out = vec![0x30u8, 0x0du8, 0x0au8, 0x0du8, 0x0au8];
    assert(out@ =~= terminal_marker());
    out
}

} // verus!
