use vstd::prelude::*;

use crate::bytes::{le32, le32_at, lemma_le32_roundtrip, lemma_word_roundtrip, push_le32, push_word, read_word, word_at, word_bytes, ByteOrder};

verus! {

/// The bytes of a frame: each pixel as four little-endian bytes, in order.
pub open spec fn le_bytes_of(pixels: Seq<u32>) -> Seq<u8> {
    Seq::new(4 * pixels.len(), |i: int| le32(pixels[i / 4])[i % 4])
}

/// The pixels of a frame's bytes: each four bytes read little-endian.
pub open spec fn pixels_of_le(bytes: Seq<u8>) -> Seq<u32> {
    Seq::new(bytes.len() / 4, |k: int| le32_at(bytes, 4 * k))
}

/// A frame's pixels as the bytes the server packs and sends.
pub fn pixels_as_le_bytes(pixels: &[u32]) -> (out: Vec<u8>)
    requires
        4 * pixels@.len() <= usize::MAX,
    ensures
        out@ == le_bytes_of(pixels@),
{
    let mut out: Vec<u8> = Vec::with_capacity(pixels.len() * 4);
    let mut i: usize = 0;
    while i < pixels.len()
        invariant
            i <= pixels@.len(),
            out@ == le_bytes_of(pixels@.take(i as int)),
        decreases pixels@.len() - i,
    {
        let ghost before = out@;
        push_le32(&mut out, pixels[i]);
        i = i + 1;
        assert(out@ =~= le_bytes_of(pixels@.take(i as int))) by {
            assert forall|j: int| 0 <= j < out@.len() implies out@[j] == le_bytes_of(
                pixels@.take(i as int),
            )[j] by {
                if j < 4 * (i - 1) {
                    assert(before[j] == le_bytes_of(pixels@.take(i - 1))[j]);
                } else {
                    assert(j / 4 == i - 1);
                }
            }
        }
    }
    assert(pixels@.take(pixels@.len() as int) =~= pixels@);
    out
}

/// The bytes of a frame: each pixel as its four bytes in byte order `order`, in order.
pub open spec fn bytes_in(order: ByteOrder, pixels: Seq<u32>) -> Seq<u8> {
    Seq::new(4 * pixels.len(), |i: int| word_bytes(order, pixels[i / 4])[i % 4])
}

/// A frame's pixels as bytes, each pixel in byte order `order` (the machine's
/// own order gives the frame's memory layout).
pub fn pixels_as_bytes(pixels: &[u32], order: ByteOrder) -> (out: Vec<u8>)
    requires
        4 * pixels@.len() <= usize::MAX,
    ensures
        out@ == bytes_in(order, pixels@),
{
    let mut out: Vec<u8> = Vec::with_capacity(pixels.len() * 4);
    let mut i: usize = 0;
    while i < pixels.len()
        invariant
            i <= pixels@.len(),
            out@ == bytes_in(order, pixels@.take(i as int)),
        decreases pixels@.len() - i,
    {
        let ghost before = out@;
        push_word(&mut out, order, pixels[i]);
        i = i + 1;
        assert(out@ =~= bytes_in(order, pixels@.take(i as int))) by {
            assert forall|j: int| 0 <= j < out@.len() implies out@[j] == bytes_in(
                order,
                pixels@.take(i as int),
            )[j] by {
                if j < 4 * (i - 1) {
                    assert(before[j] == bytes_in(order, pixels@.take(i - 1))[j]);
                } else {
                    assert(j / 4 == i - 1);
                }
            }
        }
    }
    assert(pixels@.take(pixels@.len() as int) =~= pixels@);
    out
}

/// The pixels of a frame's bytes: each four bytes read in byte order `order`.
pub open spec fn pixels_in(order: ByteOrder, bytes: Seq<u8>) -> Seq<u32> {
    Seq::new(bytes.len() / 4, |k: int| word_at(order, bytes, 4 * k))
}

/// A frame's bytes read back as pixels in byte order `order`. Bytes past the
/// last whole pixel are not read.
pub fn pixels_from_bytes(bytes: &[u8], order: ByteOrder) -> (pixels: Vec<u32>)
    ensures
        pixels@ == pixels_in(order, bytes@),
{
    let len = bytes.len();
    let n = len / 4;
    let mut pixels: Vec<u32> = Vec::with_capacity(n);
    let mut k: usize = 0;
    while k < n
        invariant
            n == bytes@.len() / 4,
            len == bytes@.len(),
            k <= n,
            pixels@ == pixels_in(order, bytes@).take(k as int),
        decreases n - k,
    {
        pixels.push(read_word(bytes, 4 * k, order));
        k = k + 1;
        assert(pixels@ =~= pixels_in(order, bytes@).take(k as int));
    }
    assert(pixels_in(order, bytes@).take(n as int) =~= pixels_in(order, bytes@));
    pixels
}

/// A frame's bytes, as the viewer receives them, read back as pixels. Bytes
/// past the last whole pixel are not read.
pub fn pixels_from_le_bytes(bytes: &[u8]) -> (pixels: Vec<u32>)
    ensures
        pixels@ == pixels_of_le(bytes@),
{
    let pixels = pixels_from_bytes(bytes, ByteOrder::Little);
    assert(pixels@ =~= pixels_of_le(bytes@));
    pixels
}

/// Reading back the bytes of a frame gives the frame.
pub proof fn law_pixel_bytes_roundtrip(pixels: Seq<u32>)
    ensures
        pixels_of_le(le_bytes_of(pixels)) == pixels,
{
    let b = le_bytes_of(pixels);
    assert forall|k: int| 0 <= k < pixels.len() implies #[trigger] le32_at(b, 4 * k) == pixels[k] by {
        lemma_le32_roundtrip(pixels[k]);
        assert((4 * k) / 4 == k && (4 * k + 1) / 4 == k && (4 * k + 2) / 4 == k && (4 * k + 3) / 4
            == k);
        assert((4 * k) % 4 == 0 && (4 * k + 1) % 4 == 1 && (4 * k + 2) % 4 == 2 && (4 * k + 3) % 4
            == 3);
    }
    assert(pixels_of_le(b) =~= pixels);
}

/// Reading back, in one byte order, the bytes of a frame written in that
/// order gives the frame.
pub proof fn law_pixel_bytes_roundtrip_in(order: ByteOrder, pixels: Seq<u32>)
    ensures
        pixels_in(order, bytes_in(order, pixels)) == pixels,
{
    let b = bytes_in(order, pixels);
    assert forall|k: int| 0 <= k < pixels.len() implies #[trigger] word_at(order, b, 4 * k)
        == pixels[k] by {
        lemma_word_roundtrip(order, pixels[k]);
        assert((4 * k) / 4 == k && (4 * k + 1) / 4 == k && (4 * k + 2) / 4 == k && (4 * k + 3) / 4
            == k);
        assert((4 * k) % 4 == 0 && (4 * k + 1) % 4 == 1 && (4 * k + 2) % 4 == 2 && (4 * k + 3) % 4
            == 3);
        let wb = word_bytes(order, pixels[k]);
        assert(b.subrange(4 * k, 4 * k + 4) =~= wb);
        assert(word_at(order, b, 4 * k) == word_at(order, wb, 0));
    }
    assert(pixels_in(order, b) =~= pixels);
}

} // verus!
