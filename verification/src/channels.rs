//! Channel separator.
//!
//! Splits an interleaved pixel buffer into a color-channel stream and an
//! optional alpha stream, and recombines them. With alpha, every pixel is
//! four bytes: three color bytes followed by one alpha byte. Without alpha,
//! the buffer already holds color bytes only and passes through unchanged.

use vstd::prelude::*;
use vstd::slice::slice_to_vec;

verus! {

/// The color bytes of an interleaved buffer with alpha: of each 4-byte
/// pixel, the first three bytes, in pixel order.
pub open spec fn color_of(p: Seq<u8>) -> Seq<u8> {
    Seq::new((p.len() / 4) * 3, |i: int| p[(i / 3) * 4 + (i % 3)])
}

/// The alpha bytes of an interleaved buffer with alpha: of each 4-byte
/// pixel, the fourth byte.
pub open spec fn alpha_of(p: Seq<u8>) -> Seq<u8> {
    Seq::new(p.len() / 4, |i: int| p[4 * i + 3])
}

/// Color and alpha streams interleaved back into pixels: three color bytes,
/// then one alpha byte, per pixel.
pub open spec fn combined(c: Seq<u8>, a: Seq<u8>) -> Seq<u8> {
    Seq::new(
        4 * a.len(),
        |i: int|
            if i % 4 == 3 {
                a[i / 4]
            } else {
                c[(i / 4) * 3 + (i % 4)]
            },
    )
}

/// Splits a pixel buffer into its color stream and, when the buffer carries
/// an alpha channel, the alpha stream. Without alpha the buffer is the color
/// stream already and comes back unchanged.
pub fn separate(pixels: &[u8], has_alpha: bool) -> (r: (Vec<u8>, Option<Vec<u8>>))
    requires
        has_alpha ==> pixels@.len() % 4 == 0,
    ensures
        has_alpha ==> r.0@ == color_of(pixels@) && (r.1 matches Some(a) && a@ == alpha_of(
            pixels@,
        )),
        !has_alpha ==> r.0@ == pixels@ && r.1 is None,
{
    if !has_alpha {
        return (slice_to_vec(pixels), None);
    }
    let n = pixels.len();
    let count = n / 4;
    let mut color: Vec<u8> = Vec::new();
    let mut alpha: Vec<u8> = Vec::new();
    let mut i: usize = 0;
    while i < count
        invariant
            i <= count,
            n == pixels@.len(),
            count == n / 4,
            n % 4 == 0,
            color@.len() == 3 * i,
            alpha@.len() == i,
            forall|j: int| #![trigger color@[j]]
                0 <= j < 3 * i ==> color@[j] == pixels@[(j / 3) * 4 + (j % 3)],
            forall|j: int| 0 <= j < i ==> alpha@[j] == pixels@[4 * j + 3],
        decreases count - i,
    {
        proof {
            assert(4 * i + 3 < n) by (nonlinear_arith)
                requires
                    i < count,
                    count == n / 4,
                    n % 4 == 0,
                    0 <= n,
            ;
        }
        let base = 4 * i;
        color.push(pixels[base]);
        color.push(pixels[base + 1]);
        color.push(pixels[base + 2]);
        alpha.push(pixels[base + 3]);
        proof {
            assert forall|j: int| 0 <= j < 3 * (i + 1) implies #[trigger] color@[j] == pixels@[(j
                / 3) * 4 + (j % 3)] by {
                if j >= 3 * i {
                    assert(j / 3 == i && 0 <= j % 3 < 3) by (nonlinear_arith)
                        requires
                            3 * i <= j < 3 * i + 3,
                            0 <= i,
                    ;
                }
            }
        }
        i += 1;
    }
    proof {
        assert(color@ =~= color_of(pixels@));
        assert(alpha@ =~= alpha_of(pixels@));
    }
    (color, Some(alpha))
}

/// Recombines a color stream with an alpha stream into an interleaved pixel
/// buffer; with no alpha stream, the color stream is the result unchanged.
pub fn add_alpha(bytes: Vec<u8>, alpha: Option<Vec<u8>>) -> (r: Vec<u8>)
    requires
        alpha matches Some(a) ==> bytes@.len() == 3 * a@.len(),
    ensures
        alpha matches Some(a) ==> r@ == combined(bytes@, a@),
        alpha is None ==> r@ == bytes@,
{
    match alpha {
        None => bytes,
        Some(a) => {
            let count = a.len();
            let blen = bytes.len();
            let mut out: Vec<u8> = Vec::new();
            let mut i: usize = 0;
            while i < count
                invariant
                    i <= count,
                    count == a@.len(),
                    blen == bytes@.len(),
                    blen == 3 * count,
                    out@.len() == 4 * i,
                    forall|j: int| 0 <= j < 4 * i ==> out@[j] == combined(bytes@, a@)[j],
                decreases count - i,
            {
                proof {
                    assert(3 * i + 2 < 3 * count) by (nonlinear_arith)
                        requires
                            i < count,
                            0 <= i,
                    ;
                    assert(3 * i + 2 < blen);
                }
                let base = 3 * i;
                out.push(bytes[base]);
                out.push(bytes[base + 1]);
                out.push(bytes[base + 2]);
                out.push(a[i]);
                proof {
                    assert forall|j: int| 0 <= j < 4 * (i + 1) implies #[trigger] out@[j]
                        == combined(bytes@, a@)[j] by {
                        if j >= 4 * i {
                            assert(j / 4 == i && 0 <= j % 4 < 4) by (nonlinear_arith)
                                requires
                                    4 * i <= j < 4 * i + 4,
                                    0 <= i,
                            ;
                        }
                    }
                }
                i += 1;
            }
            proof {
                assert(out@ =~= combined(bytes@, a@));
            }
            out
        },
    }
}

/// Law: separating a well-formed pixel buffer into color and alpha and
/// recombining them gives the buffer back.
pub proof fn lemma_separate_combine(p: Seq<u8>)
    requires
        p.len() % 4 == 0,
    ensures
        combined(color_of(p), alpha_of(p)) == p,
{
    let c = color_of(p);
    let a = alpha_of(p);
    assert(4 * (p.len() / 4) == p.len()) by (nonlinear_arith)
        requires
            p.len() % 4 == 0,
    ;
    assert forall|i: int| 0 <= i < p.len() implies combined(c, a)[i] == p[i] by {
        let q = i / 4;
        let r = i % 4;
        assert(i == 4 * q + r && 0 <= r < 4 && 0 <= q < p.len() / 4) by (nonlinear_arith)
            requires
                0 <= i < p.len(),
                q == i / 4,
                r == i % 4,
                p.len() % 4 == 0,
        ;
        if r == 3 {
            assert(combined(c, a)[i] == a[q]);
        } else {
            assert(combined(c, a)[i] == c[3 * q + r]);
            assert((3 * q + r) / 3 == q && (3 * q + r) % 3 == r) by (nonlinear_arith)
                requires
                    0 <= q,
                    0 <= r < 3,
            ;
        }
    }
    assert(combined(c, a) =~= p);
}

/// Law: recombination is inverted by separation — the color and alpha
/// streams can be read back off the interleaved buffer unchanged.
pub proof fn lemma_combined_separate(c: Seq<u8>, a: Seq<u8>)
    requires
        c.len() == 3 * a.len(),
    ensures
        color_of(combined(c, a)) == c,
        alpha_of(combined(c, a)) == a,
{
    let p = combined(c, a);
    assert(p.len() == 4 * a.len());
    assert(p.len() / 4 == a.len()) by (nonlinear_arith)
        requires
            p.len() == 4 * a.len(),
    ;
    assert forall|i: int| 0 <= i < a.len() implies alpha_of(p)[i] == a[i] by {
        assert((4 * i + 3) % 4 == 3 && (4 * i + 3) / 4 == i) by (nonlinear_arith)
            requires
                0 <= i,
        ;
    }
    assert forall|i: int| 0 <= i < c.len() implies color_of(p)[i] == c[i] by {
        let q = i / 3;
        let r = i % 3;
        assert(i == 3 * q + r && 0 <= r < 3 && 0 <= q < a.len()) by (nonlinear_arith)
            requires
                0 <= i < c.len(),
                c.len() == 3 * a.len(),
                q == i / 3,
                r == i % 3,
        ;
        assert(color_of(p)[i] == p[q * 4 + r]);
        assert((q * 4 + r) % 4 == r && (q * 4 + r) / 4 == q && (q * 4 + r) < 4 * a.len())
            by (nonlinear_arith)
            requires
                0 <= r < 3,
                0 <= q < a.len(),
        ;
        assert(p[q * 4 + r] == c[q * 3 + r]);
    }
    assert(alpha_of(p) =~= a);
    assert(color_of(p) =~= c);
}

} // verus!
