//! Whole-image operations: hide a message in a pixel buffer, recover it
//! from one.
//!
//! A buffer with an alpha channel is first split into color and alpha
//! streams; only the color stream carries payload, and the alpha stream is
//! interleaved back untouched. A buffer without alpha is itself the color
//! stream.

use crate::channels::{add_alpha, alpha_of, color_of, combined, lemma_combined_separate, separate};
use crate::frame::{encode_message, frame_len, frame_symbols, has_magic, lemma_frame_roundtrip,
    parse_frame, DecodeOutcome, EncodeError};
use crate::symbols::{extracted, injected};
use vstd::prelude::*;

verus! {

/// The color stream a pixel buffer offers as carrier: the buffer itself, or
/// its color bytes when a fourth byte per pixel is alpha.
pub open spec fn carrier_of(p: Seq<u8>, has_alpha: bool) -> Seq<u8> {
    if has_alpha {
        color_of(p)
    } else {
        p
    }
}

/// The pixel buffer that results from hiding a message in `p`: frame symbols
/// injected into the color stream, alpha bytes unchanged.
pub open spec fn encoded_pixels(p: Seq<u8>, has_alpha: bool, m: Seq<u8>) -> Seq<u8> {
    if has_alpha {
        combined(injected(color_of(p), frame_symbols(m)), alpha_of(p))
    } else {
        injected(p, frame_symbols(m))
    }
}

/// Hides a message in a pixel buffer, refusing it when the buffer's color
/// stream is too short for the frame: four carrier bytes per frame byte,
/// eight frame bytes of header before the message.
pub fn encode_pixels(pixels: &[u8], has_alpha: bool, message: &[u8]) -> (r: Result<
    Vec<u8>,
    EncodeError,
>)
    requires
        has_alpha ==> pixels@.len() % 4 == 0,
        message@.len() <= u32::MAX,
    ensures
        4 * (8 + message@.len()) <= carrier_of(pixels@, has_alpha).len() ==> (r matches Ok(v) && v@
            == encoded_pixels(pixels@, has_alpha, message@)),
        4 * (8 + message@.len()) > carrier_of(pixels@, has_alpha).len() ==> (r matches Err(e) && e
            == EncodeError::CapacityExceeded),
{
    let (color, alpha) = separate(pixels, has_alpha);
    match encode_message(color.as_slice(), message) {
        Ok(stuffed) => Ok(add_alpha(stuffed, alpha)),
        Err(e) => Err(e),
    }
}

/// Recovers the message hidden in a pixel buffer, reading only its color
/// stream; see [`parse_frame`] for the three outcomes.
pub fn decode_pixels(pixels: &[u8], has_alpha: bool) -> (r: DecodeOutcome)
    requires
        has_alpha ==> pixels@.len() % 4 == 0,
    ensures
        ({
            let e = extracted(carrier_of(pixels@, has_alpha));
            &&& !has_magic(e) ==> r is NotPresent
            &&& has_magic(e) && e.len() < 8 ==> r is Truncated
            &&& has_magic(e) && e.len() >= 8 && e.len() < 8 + frame_len(e) ==> r is Truncated
            &&& has_magic(e) && e.len() >= 8 && e.len() >= 8 + frame_len(e) ==> (r matches
            DecodeOutcome::Found(m) && m@ == e.subrange(8, 8 + frame_len(e) as int))
        }),
{
    let (color, _alpha) = separate(pixels, has_alpha);
    parse_frame(color.as_slice())
}

/// Law: hiding a message never touches the alpha channel — the alpha bytes
/// of the encoded buffer are those of the source, byte for byte.
pub proof fn lemma_alpha_preserved(p: Seq<u8>, m: Seq<u8>)
    requires
        p.len() % 4 == 0,
    ensures
        alpha_of(encoded_pixels(p, true, m)) == alpha_of(p),
{
    let c = injected(color_of(p), frame_symbols(m));
    assert(c.len() == 3 * alpha_of(p).len()) by (nonlinear_arith)
        requires
            c.len() == (p.len() / 4) * 3,
            alpha_of(p).len() == p.len() / 4,
    ;
    lemma_combined_separate(c, alpha_of(p));
}

/// Law: a message hidden in a pixel buffer with room for its frame is
/// recovered intact — the encoded buffer's color stream opens with the magic
/// marker, its length field names the message's length, and the message
/// bytes follow, so decoding yields exactly the message.
pub proof fn lemma_encode_decode_roundtrip(p: Seq<u8>, has_alpha: bool, m: Seq<u8>)
    requires
        has_alpha ==> p.len() % 4 == 0,
        m.len() <= u32::MAX,
        4 * (8 + m.len()) <= carrier_of(p, has_alpha).len(),
    ensures
        ({
            let e = extracted(carrier_of(encoded_pixels(p, has_alpha, m), has_alpha));
            &&& has_magic(e)
            &&& e.len() >= 8 + frame_len(e)
            &&& frame_len(e) == m.len()
            &&& e.subrange(8, 8 + frame_len(e) as int) == m
        }),
{
    if has_alpha {
        let c = injected(color_of(p), frame_symbols(m));
        assert(c.len() == 3 * alpha_of(p).len()) by (nonlinear_arith)
            requires
                c.len() == (p.len() / 4) * 3,
                alpha_of(p).len() == p.len() / 4,
        ;
        lemma_combined_separate(c, alpha_of(p));
        lemma_frame_roundtrip(color_of(p), m);
    } else {
        lemma_frame_roundtrip(p, m);
    }
}

} // verus!
