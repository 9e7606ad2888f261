//! Message frame codec.
//!
//! The frame is self-describing: a fixed 4-byte magic marker, the message
//! length as a big-endian 32-bit integer, then the raw message bytes. Spread
//! over the low two bits of a color stream it occupies four carrier bytes per
//! frame byte. Decoding distinguishes three outcomes: a recovered message, no
//! message at all (magic mismatch), and a frame whose claimed length exceeds
//! what the stream can hold.

use crate::symbols::{extract_bytes, extracted, inject_symbols, injected, lemma_extract_injected,
    split_bytes, to_symbols};
use vstd::prelude::*;
use vstd::string::StringSliceAdditionalSpecFns;

verus! {

/// The fixed magic marker, the bytes of "BHTM".
pub open spec fn magic() -> Seq<u8> {
    seq![0x42u8, 0x48u8, 0x54u8, 0x4du8]
}

/// A 32-bit integer laid out as four bytes, big end first.
pub open spec fn be_bytes(n: u32) -> Seq<u8> {
    seq![
        (n >> 24) as u8,
        ((n >> 16) & 0xff) as u8,
        ((n >> 8) & 0xff) as u8,
        (n & 0xff) as u8,
    ]
}

/// Four bytes read back as a big-endian 32-bit integer.
pub open spec fn be_u32(b0: u8, b1: u8, b2: u8, b3: u8) -> u32 {
    ((b0 as u32) << 24) | ((b1 as u32) << 16) | ((b2 as u32) << 8) | (b3 as u32)
}

/// The frame for a message: magic marker, big-endian length, message bytes.
pub open spec fn frame_bytes(msg: Seq<u8>) -> Seq<u8> {
    magic() + be_bytes(msg.len() as u32) + msg
}

/// The frame for a message as a 2-bit symbol stream.
pub open spec fn frame_symbols(msg: Seq<u8>) -> Seq<u8> {
    to_symbols(frame_bytes(msg))
}

/// Whether an extracted byte stream opens with the magic marker.
pub open spec fn has_magic(e: Seq<u8>) -> bool {
    e.len() >= 4 && e[0] == 0x42u8 && e[1] == 0x48u8 && e[2] == 0x54u8 && e[3] == 0x4du8
}

/// The message length a frame claims: bytes four to seven, big end first.
/// Meaningful only when the stream holds at least eight bytes.
pub open spec fn frame_len(e: Seq<u8>) -> nat {
    be_u32(e[4], e[5], e[6], e[7]) as nat
}

/// The outcome of decoding a color stream.
#[derive(Debug)]
pub enum DecodeOutcome {
    /// The stream opens with the magic marker and holds the full claimed
    /// message: its raw bytes.
    Found(Vec<u8>),
    /// The stream does not open with the magic marker: no hidden message, a
    /// normal negative result.
    NotPresent,
    /// The stream opens with the magic marker but claims more message bytes
    /// than it can hold: the frame is incomplete.
    Truncated,
}

/// The reason an encode is refused.
#[derive(Debug, PartialEq, Eq, Structural)]
pub enum EncodeError {
    /// The frame needs more carrier bytes than the color stream offers.
    CapacityExceeded,
}

/// Tests whether a byte stream opens with the magic marker; shorter streams
/// never match.
pub fn check_magic_bytes(bytes: &[u8]) -> (r: bool)
    ensures
        r == has_magic(bytes@),
{
    bytes.len() >= 4 && bytes[0] == 0x42 && bytes[1] == 0x48 && bytes[2] == 0x54 && bytes[3]
        == 0x4d
}

/// Reads the frame's length field: bytes four to seven, big end first.
pub fn get_length(bytes: &[u8]) -> (r: usize)
    requires
        bytes@.len() >= 8,
    ensures
        r == frame_len(bytes@),
{
    let v: u32 = ((bytes[4] as u32) << 24) | ((bytes[5] as u32) << 16) | ((bytes[6] as u32) << 8)
        | (bytes[7] as u32);
    v as usize
}

/// Lays the frame out as bytes: magic marker, big-endian length, message.
pub fn build_frame_bytes(message: &[u8]) -> (r: Vec<u8>)
    requires
        message@.len() <= u32::MAX,
    ensures
        r@ == frame_bytes(message@),
{
    let mut out: Vec<u8> = Vec::new();
    out.push(0x42);
    out.push(0x48);
    out.push(0x54);
    out.push(0x4d);
    let len = message.len() as u32;
    out.push((len >> 24) as u8);
    out.push(((len >> 16) & 0xff) as u8);
    out.push(((len >> 8) & 0xff) as u8);
    out.push((len & 0xff) as u8);
    let n = message.len();
    proof {
        assert(out@.subrange(0, 8) =~= magic() + be_bytes(n as u32));
    }
    let mut i: usize = 0;
    while i < n
        invariant
            i <= n,
            n == message@.len(),
            n <= u32::MAX,
            out@.len() == 8 + i,
            out@.subrange(0, 8) == magic() + be_bytes(n as u32),
            forall|j: int| 0 <= j < i ==> out@[8 + j] == message@[j],
        decreases n - i,
    {
        let ghost pre = out@;
        out.push(message[i]);
        proof {
            assert(out@.subrange(0, 8) =~= pre.subrange(0, 8));
        }
        i += 1;
    }
    proof {
        assert(out@ =~= frame_bytes(message@));
    }
    out
}

/// Builds the frame for a message as a 2-bit symbol stream: sixteen symbols
/// of magic marker, sixteen of big-endian length, then four per message byte.
pub fn build_frame(message: &[u8]) -> (r: Vec<u8>)
    requires
        message@.len() <= u32::MAX,
    ensures
        r@ == frame_symbols(message@),
{
    let bytes = build_frame_bytes(message);
    split_bytes(bytes.as_slice())
}

/// Hides a message in a color stream: the frame's symbols overwrite the low
/// two bits of the leading carrier bytes, one symbol per byte, and carrier
/// bytes past the frame pass through unchanged. When the stream is shorter
/// than the frame, the symbols that do not fit are silently dropped; use
/// [`encode_message`] to have that refused instead.
pub fn inject_message(bytes: &[u8], message: &str) -> (r: Vec<u8>)
    requires
        message.spec_bytes().len() <= u32::MAX,
    ensures
        r@ == injected(bytes@, frame_symbols(message.spec_bytes())),
{
    let frame = build_frame(message.as_bytes());
    inject_symbols(bytes, frame.as_slice())
}

/// Hides a message in a color stream, refusing it when the stream is too
/// short: the frame needs four carrier bytes per frame byte, and the frame is
/// eight bytes longer than the message.
pub fn encode_message(color_stream: &[u8], message: &[u8]) -> (r: Result<Vec<u8>, EncodeError>)
    requires
        message@.len() <= u32::MAX,
    ensures
        4 * (8 + message@.len()) <= color_stream@.len() ==> (r matches Ok(v) && v@ == injected(
            color_stream@,
            frame_symbols(message@),
        )),
        4 * (8 + message@.len()) > color_stream@.len() ==> (r matches Err(e) && e
            == EncodeError::CapacityExceeded),
{
    let needed = 4 * (8 + message.len() as u64);
    if needed > color_stream.len() as u64 {
        return Err(EncodeError::CapacityExceeded);
    }
    let frame = build_frame_bytes(message);
    let syms = split_bytes(frame.as_slice());
    Ok(inject_symbols(color_stream, syms.as_slice()))
}

/// Recovers the message hidden in a color stream. The bytes extracted from
/// the stream must open with the magic marker, else there is no message; the
/// length field then says how many message bytes follow the eight-byte
/// header, and a claim that exceeds the extractable bytes leaves the frame
/// incomplete.
pub fn parse_frame(color_stream: &[u8]) -> (r: DecodeOutcome)
    ensures
        ({
            let e = extracted(color_stream@);
            &&& !has_magic(e) ==> r is NotPresent
            &&& has_magic(e) && e.len() < 8 ==> r is Truncated
            &&& has_magic(e) && e.len() >= 8 && e.len() < 8 + frame_len(e) ==> r is Truncated
            &&& has_magic(e) && e.len() >= 8 && e.len() >= 8 + frame_len(e) ==> (r matches
            DecodeOutcome::Found(m) && m@ == e.subrange(8, 8 + frame_len(e) as int))
        }),
{
    let e = extract_bytes(color_stream);
    if !check_magic_bytes(e.as_slice()) {
        return DecodeOutcome::NotPresent;
    }
    if e.len() < 8 {
        return DecodeOutcome::Truncated;
    }
    let l = get_length(e.as_slice());
    if e.len() - 8 < l {
        return DecodeOutcome::Truncated;
    }
    let mut message: Vec<u8> = Vec::new();
    let mut i: usize = 0;
    while i < l
        invariant
            i <= l,
            8 + l <= usize::MAX,
            8 + l <= e@.len(),
            message@.len() == i,
            forall|j: int| 0 <= j < i ==> message@[j] == e@[8 + j],
        decreases l - i,
    {
        message.push(e[8 + i]);
        i += 1;
    }
    proof {
        assert(message@ =~= extracted(color_stream@).subrange(
            8,
            8 + frame_len(extracted(color_stream@)) as int,
        ));
    }
    DecodeOutcome::Found(message)
}

/// Reading the length field back undoes the big-endian layout.
proof fn lemma_be_roundtrip(n: u32)
    ensures
        be_u32(
            (n >> 24) as u8,
            ((n >> 16) & 0xff) as u8,
            ((n >> 8) & 0xff) as u8,
            (n & 0xff) as u8,
        ) == n,
{
    assert((((n >> 24) as u8 as u32) << 24) | ((((n >> 16) & 0xff) as u8 as u32) << 16) | ((((n
        >> 8) & 0xff) as u8 as u32) << 8) | ((n & 0xff) as u8 as u32) == n) by (bit_vector);
}

/// Law: a frame injected into a color stream with room for it parses back to
/// exactly the message it was built from — the extracted bytes open with the
/// magic marker, the length field names the message's length, and the
/// message bytes follow intact.
pub proof fn lemma_frame_roundtrip(cs: Seq<u8>, m: Seq<u8>)
    requires
        m.len() <= u32::MAX,
        4 * (8 + m.len()) <= cs.len(),
    ensures
        ({
            let e = extracted(injected(cs, frame_symbols(m)));
            &&& has_magic(e)
            &&& e.len() >= 8
            &&& frame_len(e) == m.len()
            &&& e.len() >= 8 + frame_len(e)
            &&& e.subrange(8, 8 + frame_len(e) as int) == m
        }),
{
    let f = frame_bytes(m);
    let e = extracted(injected(cs, frame_symbols(m)));
    assert(f.len() == 8 + m.len());
    lemma_extract_injected(cs, f);
    assert(e.len() >= 8 + m.len()) by (nonlinear_arith)
        requires
            e.len() == cs.len() / 4,
            4 * (8 + m.len()) <= cs.len(),
    ;
    assert(f[0] == 0x42u8 && f[1] == 0x48u8 && f[2] == 0x54u8 && f[3] == 0x4du8);
    lemma_be_roundtrip(m.len() as u32);
    assert(frame_len(e) == m.len());
    assert forall|j: int| 0 <= j < m.len() implies e.subrange(8, 8 + m.len() as int)[j] == m[j] by {
        assert(e[8 + j] == f[8 + j]);
    }
    assert(e.subrange(8, 8 + frame_len(e) as int) =~= m);
}

} // verus!
