//! Bit packer/unpacker.
//!
//! A byte decomposes into four 2-bit symbols, most significant pair first.
//! Symbols travel in the least significant two bits of color-channel bytes:
//! extraction reads them back in groups of four, and injection overwrites the
//! low bits of a carrier stream while preserving everything else.

use vstd::prelude::*;

verus! {

/// The 2-bit symbol at position `i` (0 to 3) of byte `b`, most significant
/// pair first.
pub open spec fn sym(b: u8, i: int) -> u8 {
    if i == 0 {
        (b >> 6) & 3
    } else if i == 1 {
        (b >> 4) & 3
    } else if i == 2 {
        (b >> 2) & 3
    } else {
        b & 3
    }
}

/// Every byte of `bs` spread into four 2-bit symbols, most significant pair
/// first.
pub open spec fn to_symbols(bs: Seq<u8>) -> Seq<u8> {
    Seq::new(bs.len() * 4, |j: int| sym(bs[j / 4], j % 4))
}

/// One byte reassembled from four symbols (only the low two bits of each
/// symbol count).
pub open spec fn byte_of(s0: u8, s1: u8, s2: u8, s3: u8) -> u8 {
    ((s0 & 3) << 6) | ((s1 & 3) << 4) | ((s2 & 3) << 2) | (s3 & 3)
}

/// The bytes hidden in a color stream: each complete group of four carrier
/// bytes contributes one byte, reassembled from the groups' low two bits.
/// A trailing incomplete group is discarded.
pub open spec fn extracted(cs: Seq<u8>) -> Seq<u8> {
    Seq::new(
        cs.len() / 4,
        |i: int| byte_of(cs[4 * i], cs[4 * i + 1], cs[4 * i + 2], cs[4 * i + 3]),
    )
}

/// The carrier stream with the low two bits of its leading bytes overwritten
/// by `syms`, one symbol per byte; bytes past the end of `syms` are unchanged.
pub open spec fn injected(cs: Seq<u8>, syms: Seq<u8>) -> Seq<u8> {
    Seq::new(
        cs.len(),
        |i: int|
            if i < syms.len() {
                (cs[i] & 0xfc) | (syms[i] & 3)
            } else {
                cs[i]
            },
    )
}

/// Splits every byte into its four 2-bit symbols, most significant pair first.
pub fn split_bytes(bytes: &[u8]) -> (r: Vec<u8>)
    ensures
        r@ == to_symbols(bytes@),
{
    let n = bytes.len();
    let mut out: Vec<u8> = Vec::new();
    let mut i: usize = 0;
    while i < n
        invariant
            i <= n,
            n == bytes@.len(),
            out@.len() == 4 * i,
            forall|j: int| 0 <= j < out@.len() ==> out@[j] == sym(bytes@[j / 4], j % 4),
        decreases n - i,
    {
        let b = bytes[i];
        out.push((b >> 6) & 3);
        out.push((b >> 4) & 3);
        out.push((b >> 2) & 3);
        out.push(b & 3);
        proof {
            assert forall|j: int| 0 <= j < out@.len() implies out@[j] == sym(
                bytes@[j / 4],
                j % 4,
            ) by {
                if j >= 4 * i {
                    assert(j / 4 == i && 0 <= j % 4 < 4) by (nonlinear_arith)
                        requires
                            4 * i <= j < 4 * i + 4,
                            0 <= i,
                    ;
                }
            }
        }
        i += 1;
    }
    proof {
        assert(out@ =~= to_symbols(bytes@));
    }
    out
}

/// Reads the hidden bytes out of a color stream: one byte per complete group
/// of four carrier bytes, from their low two bits; a trailing incomplete
/// group is discarded.
pub fn extract_bytes(rgb_bytes: &[u8]) -> (r: Vec<u8>)
    ensures
        r@ == extracted(rgb_bytes@),
{
    let n = rgb_bytes.len();
    let groups = n / 4;
    let mut out: Vec<u8> = Vec::new();
    let mut i: usize = 0;
    while i < groups
        invariant
            i <= groups,
            groups == rgb_bytes@.len() / 4,
            n == rgb_bytes@.len(),
            out@.len() == i,
            forall|j: int| #![trigger out@[j]]
                0 <= j < i ==> out@[j] == byte_of(
                    rgb_bytes@[4 * j],
                    rgb_bytes@[4 * j + 1],
                    rgb_bytes@[4 * j + 2],
                    rgb_bytes@[4 * j + 3],
                ),
        decreases groups - i,
    {
        proof {
            assert(4 * i + 3 < n) by (nonlinear_arith)
                requires
                    i < groups,
                    groups == n / 4,
                    0 <= n,
            ;
        }
        let base = 4 * i;
        let v1 = (rgb_bytes[base] & 3) << 6;
        let v2 = (rgb_bytes[base + 1] & 3) << 4;
        let v3 = (rgb_bytes[base + 2] & 3) << 2;
        let v4 = rgb_bytes[base + 3] & 3;
        out.push(v1 | v2 | v3 | v4);
        i += 1;
    }
    proof {
        assert(out@ =~= extracted(rgb_bytes@));
    }
    out
}

/// Overwrites the low two bits of the leading carrier bytes with the given
/// symbols, one symbol per byte; once the symbols run out, the remaining
/// carrier bytes pass through unchanged.
pub fn inject_symbols(carrier: &[u8], syms: &[u8]) -> (r: Vec<u8>)
    ensures
        r@ == injected(carrier@, syms@),
{
    let n = carrier.len();
    let m = syms.len();
    let mut out: Vec<u8> = Vec::new();
    let mut i: usize = 0;
    while i < n
        invariant
            i <= n,
            n == carrier@.len(),
            m == syms@.len(),
            out@.len() == i,
            forall|j: int| 0 <= j < i ==> out@[j] == injected(carrier@, syms@)[j],
        decreases n - i,
    {
        if i < m {
            out.push((carrier[i] & 0xfc) | (syms[i] & 3));
        } else {
            out.push(carrier[i]);
        }
        i += 1;
    }
    proof {
        assert(out@ =~= injected(carrier@, syms@));
    }
    out
}

/// Law: reading a symbol stream back as bytes undoes the split, for any byte
/// sequence at all.
pub proof fn lemma_symbols_roundtrip(bs: Seq<u8>)
    ensures
        extracted(to_symbols(bs)) == bs,
{
    let s = to_symbols(bs);
    assert forall|i: int| 0 <= i < bs.len() implies extracted(s)[i] == bs[i] by {
        assert(4 * i / 4 == i && (4 * i + 1) / 4 == i && (4 * i + 2) / 4 == i && (4 * i + 3) / 4
            == i && 4 * i % 4 == 0 && (4 * i + 1) % 4 == 1 && (4 * i + 2) % 4 == 2 && (4 * i + 3)
            % 4 == 3) by (nonlinear_arith)
            requires
                0 <= i,
        ;
        lemma_byte_recompose(bs[i]);
    }
    assert(extracted(s) =~= bs);
}

/// Law: injecting the symbol stream of `bs` into a carrier large enough for
/// it and extracting again recovers every byte of `bs`, whatever the carrier
/// held before.
pub proof fn lemma_extract_injected(cs: Seq<u8>, bs: Seq<u8>)
    requires
        4 * bs.len() <= cs.len(),
    ensures
        extracted(injected(cs, to_symbols(bs))).len() == cs.len() / 4,
        bs.len() <= cs.len() / 4,
        forall|i: int|
            0 <= i < bs.len() ==> extracted(injected(cs, to_symbols(bs)))[i] == bs[i],
{
    let s = to_symbols(bs);
    let d = injected(cs, s);
    let e = extracted(d);
    assert(bs.len() <= cs.len() / 4) by (nonlinear_arith)
        requires
            4 * bs.len() <= cs.len(),
    ;
    assert forall|i: int| 0 <= i < bs.len() implies e[i] == bs[i] by {
        assert(4 * i / 4 == i && (4 * i + 1) / 4 == i && (4 * i + 2) / 4 == i && (4 * i + 3) / 4
            == i && 4 * i % 4 == 0 && (4 * i + 1) % 4 == 1 && (4 * i + 2) % 4 == 2 && (4 * i + 3)
            % 4 == 3 && 4 * i + 3 < 4 * bs.len()) by (nonlinear_arith)
            requires
                0 <= i < bs.len(),
        ;
        assert(d[4 * i] == (cs[4 * i] & 0xfc) | (sym(bs[i], 0) & 3));
        assert(d[4 * i + 1] == (cs[4 * i + 1] & 0xfc) | (sym(bs[i], 1) & 3));
        assert(d[4 * i + 2] == (cs[4 * i + 2] & 0xfc) | (sym(bs[i], 2) & 3));
        assert(d[4 * i + 3] == (cs[4 * i + 3] & 0xfc) | (sym(bs[i], 3) & 3));
        lemma_masked_recompose(bs[i], cs[4 * i], cs[4 * i + 1], cs[4 * i + 2], cs[4 * i + 3]);
    }
}

/// A byte survives being spread over the low bits of four carrier bytes and
/// reassembled, whatever the carriers' high bits.
proof fn lemma_masked_recompose(b: u8, c0: u8, c1: u8, c2: u8, c3: u8)
    ensures
        byte_of(
            (c0 & 0xfc) | (((b >> 6) & 3) & 3),
            (c1 & 0xfc) | (((b >> 4) & 3) & 3),
            (c2 & 0xfc) | (((b >> 2) & 3) & 3),
            (c3 & 0xfc) | ((b & 3) & 3),
        ) == b,
{
    assert(((((c0 & 0xfc) | (((b >> 6) & 3) & 3)) & 3) << 6) | ((((c1 & 0xfc) | (((b >> 4) & 3)
        & 3)) & 3) << 4) | ((((c2 & 0xfc) | (((b >> 2) & 3) & 3)) & 3) << 2) | (((c3 & 0xfc) | ((b
        & 3) & 3)) & 3) == b) by (bit_vector);
}

/// A byte equals the reassembly of its own four symbols.
proof fn lemma_byte_recompose(b: u8)
    ensures
        byte_of((b >> 6) & 3, (b >> 4) & 3, (b >> 2) & 3, b & 3) == b,
{
    assert(((((b >> 6) & 3) & 3) << 6) | ((((b >> 4) & 3) & 3) << 4) | ((((b >> 2) & 3) & 3) << 2)
        | ((b & 3) & 3) == b) by (bit_vector);
}

} // verus!
