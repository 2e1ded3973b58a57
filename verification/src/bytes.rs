use vstd::prelude::*;

verus! {

/// The four bytes of `v`, least significant first.
pub open spec fn le32(v: u32) -> Seq<u8> {
    seq![(v & 0xFF) as u8, ((v >> 8u32) & 0xFF) as u8, ((v >> 16u32) & 0xFF) as u8, ((v >> 24u32) & 0xFF) as u8]
}

/// The two bytes of `v`, least significant first.
pub open spec fn le16(v: u16) -> Seq<u8> {
    seq![(v & 0xFF) as u8, ((v >> 8u16) & 0xFF) as u8]
}

/// The `u32` whose little-endian bytes are `b0 b1 b2 b3`.
pub open spec fn le32_value(b0: u8, b1: u8, b2: u8, b3: u8) -> u32 {
    (b0 as u32) | ((b1 as u32) << 8u32) | ((b2 as u32) << 16u32) | ((b3 as u32) << 24u32)
}

/// The `u32` held little-endian in `s[at..at + 4]`.
pub open spec fn le32_at(s: Seq<u8>, at: int) -> u32 {
    le32_value(s[at], s[at + 1], s[at + 2], s[at + 3])
}

pub proof fn lemma_le32_roundtrip(v: u32)
    ensures
        le32_value(le32(v)[0], le32(v)[1], le32(v)[2], le32(v)[3]) == v,
{
    let b0 = (v & 0xFF) as u8;
    let b1 = ((v >> 8u32) & 0xFF) as u8;
    let b2 = ((v >> 16u32) & 0xFF) as u8;
    let b3 = ((v >> 24u32) & 0xFF) as u8;
    assert(le32_value(b0, b1, b2, b3) == v) by (bit_vector)
        requires
            b0 == (v & 0xFF) as u8,
            b1 == ((v >> 8u32) & 0xFF) as u8,
            b2 == ((v >> 16u32) & 0xFF) as u8,
            b3 == ((v >> 24u32) & 0xFF) as u8,
    ;
}

pub proof fn lemma_le32_value_roundtrip(b0: u8, b1: u8, b2: u8, b3: u8)
    ensures
        le32(le32_value(b0, b1, b2, b3)) == seq![b0, b1, b2, b3],
{
    let v = le32_value(b0, b1, b2, b3);
    assert((v & 0xFF) as u8 == b0 && ((v >> 8u32) & 0xFF) as u8 == b1 && ((v >> 16u32) & 0xFF) as u8
        == b2 && ((v >> 24u32) & 0xFF) as u8 == b3) by (bit_vector)
        requires
            v == le32_value(b0, b1, b2, b3),
    ;
    assert(le32(v) =~= seq![b0, b1, b2, b3]);
}

/// Appends the little-endian bytes of `v` to `out`.
pub fn push_le32(out: &mut Vec<u8>, v: u32)
    ensures
        final(out)@ == old(out)@ + le32(v),
{
    out.push((v & 0xFF) as u8);
    out.push(((v >> 8) & 0xFF) as u8);
    out.push(((v >> 16) & 0xFF) as u8);
    out.push(((v >> 24) & 0xFF) as u8);
    assert(final(out)@ =~= old(out)@ + le32(v));
}

/// Reads the little-endian `u32` at `s[at..at + 4]`.
pub fn read_le32(s: &[u8], at: usize) -> (v: u32)
    requires
        at + 4 <= s@.len(),
    ensures
        v == le32_at(s@, at as int),
{
    (s[at] as u32) | ((s[at + 1] as u32) << 8) | ((s[at + 2] as u32) << 16) | ((s[at + 3] as u32)
        << 24)
}

/// The four bytes of `v`, most significant first.
pub open spec fn be32(v: u32) -> Seq<u8> {
    seq![((v >> 24u32) & 0xFF) as u8, ((v >> 16u32) & 0xFF) as u8, ((v >> 8u32) & 0xFF) as u8, (v & 0xFF) as u8]
}

/// The order in which the bytes of a word are laid out.
#[derive(Clone, Copy, Debug, PartialEq, Eq, Structural)]
pub enum ByteOrder {
    /// Least significant byte first.
    Little,
    /// Most significant byte first.
    Big,
}

/// The four bytes of `v` in byte order `order`.
pub open spec fn word_bytes(order: ByteOrder, v: u32) -> Seq<u8> {
    match order {
        ByteOrder::Little => le32(v),
        ByteOrder::Big => be32(v),
    }
}

/// The `u32` held in byte order `order` in `s[at..at + 4]`.
pub open spec fn word_at(order: ByteOrder, s: Seq<u8>, at: int) -> u32 {
    match order {
        ByteOrder::Little => le32_at(s, at),
        ByteOrder::Big => le32_value(s[at + 3], s[at + 2], s[at + 1], s[at]),
    }
}

pub proof fn lemma_word_roundtrip(order: ByteOrder, v: u32)
    ensures
        word_bytes(order, v).len() == 4,
        word_at(order, word_bytes(order, v), 0) == v,
{
    lemma_le32_roundtrip(v);
}

pub proof fn lemma_word_value_roundtrip(order: ByteOrder, s: Seq<u8>, at: int)
    requires
        0 <= at,
        at + 4 <= s.len(),
    ensures
        word_bytes(order, word_at(order, s, at)) == s.subrange(at, at + 4),
{
    match order {
        ByteOrder::Little => {
            lemma_le32_value_roundtrip(s[at], s[at + 1], s[at + 2], s[at + 3]);
        },
        ByteOrder::Big => {
            lemma_le32_value_roundtrip(s[at + 3], s[at + 2], s[at + 1], s[at]);
        },
    }
    assert(word_bytes(order, word_at(order, s, at)) =~= s.subrange(at, at + 4));
}

/// Appends the bytes of `v`, in byte order `order`, to `out`.
pub fn push_word(out: &mut Vec<u8>, order: ByteOrder, v: u32)
    ensures
        final(out)@ == old(out)@ + word_bytes(order, v),
{
    match order {
        ByteOrder::Little => push_le32(out, v),
        ByteOrder::Big => {
            out.push(((v >> 24) & 0xFF) as u8);
            out.push(((v >> 16) & 0xFF) as u8);
            out.push(((v >> 8) & 0xFF) as u8);
            out.push((v & 0xFF) as u8);
            assert(final(out)@ =~= old(out)@ + be32(v));
        },
    }
}

/// Reads the `u32` held in byte order `order` at `s[at..at + 4]`.
pub fn read_word(s: &[u8], at: usize, order: ByteOrder) -> (v: u32)
    requires
        at + 4 <= s@.len(),
    ensures
        v == word_at(order, s@, at as int),
{
    let _n = s.len();
    match order {
        ByteOrder::Little => read_le32(s, at),
        ByteOrder::Big => (s[at + 3] as u32) | ((s[at + 2] as u32) << 8) | ((s[at + 1] as u32) << 16)
            | ((s[at] as u32) << 24),
    }
}

/// Calls `u32::to_ne_bytes`. Claimed: the result is the bytes of `v` in the
/// machine's byte order, which is little-endian or big-endian; which of the
/// two is left unsaid, as it depends on the machine.
#[verifier::external_body]
fn u32_to_ne_bytes(v: u32) -> (r: [u8; 4])
    ensures
        r@ == le32(v) || r@ == be32(v),
{
    v.to_ne_bytes()
}

/// The byte order of the machine this runs on: where the machine lays out the
/// word `1` with its low byte first, little-endian, else big-endian.
pub fn native_byte_order() -> ByteOrder {
    let one = u32_to_ne_bytes(1);
    if one[0] == 1 {
        ByteOrder::Little
    } else {
        ByteOrder::Big
    }
}

} // verus!
