use vstd::prelude::*;

verus! {

/// An RGBA colour; each channel is meant to hold a value in `0..=255`.
#[derive(Clone, Copy, Debug, PartialEq, Eq, Structural)]
pub struct Color {
    pub red: u32,
    pub green: u32,
    pub blue: u32,
    pub alpha: u32,
}

/// The byte of `p` that starts at bit `shift`.
pub open spec fn channel(p: u32, shift: u32) -> u32 {
    (p >> shift) & 0xFF
}

/// `0x00RRGGBB` from three channel values, each taken modulo 256.
pub open spec fn pack_rgb(r: u32, g: u32, b: u32) -> u32 {
    ((r & 0xFF) << 16) | ((g & 0xFF) << 8) | (b & 0xFF)
}

/// `0xAARRGGBB` from four channel values, each taken modulo 256.
pub open spec fn pack_argb(a: u32, r: u32, g: u32, b: u32) -> u32 {
    ((a & 0xFF) << 24) | pack_rgb(r, g, b)
}

/// A channel value of `fg` mixed over the one of `bg` with coverage `a` (out of 255),
/// scaled down by 256.
pub open spec fn mix(f: int, b: int, a: int) -> int {
    (f * a + b * (255 - a)) / 256
}

/// `fg` laid over `bg` with coverage `a`: fully `fg` at 255, fully `bg` at 0,
/// and otherwise each of the red, green and blue channels mixed on its own,
/// with the top byte cleared.
pub open spec fn blended(bg: u32, fg: u32, a: u8) -> u32 {
    if a == 255 {
        fg
    } else if a == 0 {
        bg
    } else {
        (mix(channel(fg, 16) as int, channel(bg, 16) as int, a as int) * 0x10000 + mix(
            channel(fg, 8) as int,
            channel(bg, 8) as int,
            a as int,
        ) * 0x100 + mix(channel(fg, 0) as int, channel(bg, 0) as int, a as int)) as u32
    }
}

proof fn lemma_masks(x: u32)
    by (bit_vector)
    ensures
        x & 0xFF00FF == ((x >> 16u32) & 0xFF) * 0x10000 + (x & 0xFF),
        x & 0x00FF00 == ((x >> 8u32) & 0xFF) * 0x100,
        x >> 8u32 == x / 256,
        (x >> 16u32) & 0xFF < 256,
        (x >> 8u32) & 0xFF < 256,
        x & 0xFF < 256,
        x < 0x10000 ==> x & 0xFF00 == (x / 256) * 256,
{
}

proof fn lemma_pack(u: u32, v: u32, w: u32)
    by (bit_vector)
    requires
        u < 256,
        v < 256,
        w < 256,
    ensures
        ((u * 0x10000 + v * 0x100 + w) as u32) & 0xFF00FF == u * 0x10000 + w,
        ((u * 0x10000 + w) as u32) | ((v * 0x100) as u32) == u * 0x10000 + v * 0x100 + w,
{
}

proof fn lemma_mix_bound(f: int, b: int, a: int)
    by (nonlinear_arith)
    requires
        0 <= f < 256,
        0 <= b < 256,
        0 <= a < 256,
    ensures
        0 <= f * a + b * (255 - a) <= 255 * 255,
{
}

/// The two-lane multiply used by `blend_pixels` computes the three channel
/// mixes at once, without overflowing a `u32`.
pub(crate) proof fn lemma_lane_blend(bg: u32, fg: u32, a: u32)
    requires
        a < 256,
    ensures
        (fg & 0xFF00FF) * a + (bg & 0xFF00FF) * (255 - a) <= 0xFFFF_FFFF,
        (fg & 0x00FF00) * a + (bg & 0x00FF00) * (255 - a) <= 0xFFFF_FFFF,
        ((((fg & 0xFF00FF) * a + (bg & 0xFF00FF) * (255 - a)) as u32 >> 8u32) & 0xFF00FF) | (((((fg
            & 0x00FF00) * a + (bg & 0x00FF00) * (255 - a)) as u32) >> 8u32) & 0x00FF00) == (mix(
            channel(fg, 16) as int,
            channel(bg, 16) as int,
            a as int,
        ) * 0x10000 + mix(channel(fg, 8) as int, channel(bg, 8) as int, a as int) * 0x100 + mix(
            channel(fg, 0) as int,
            channel(bg, 0) as int,
            a as int,
        )) as u32,
{
    lemma_masks(fg);
    lemma_masks(bg);
    assert(fg >> 0u32 == fg) by (bit_vector);
    assert(bg >> 0u32 == bg) by (bit_vector);
    let fr = channel(fg, 16) as int;
    let fgc = channel(fg, 8) as int;
    let fb = channel(fg, 0) as int;
    let br = channel(bg, 16) as int;
    let bgc = channel(bg, 8) as int;
    let bb = channel(bg, 0) as int;
    let ai = a as int;
    lemma_mix_bound(fr, br, ai);
    lemma_mix_bound(fgc, bgc, ai);
    lemma_mix_bound(fb, bb, ai);
    let sr = fr * ai + br * (255 - ai);
    let sg = fgc * ai + bgc * (255 - ai);
    let sb = fb * ai + bb * (255 - ai);
    assert((fr * 0x10000 + fb) * ai + (br * 0x10000 + bb) * (255 - ai) == sr * 0x10000 + sb)
        by (nonlinear_arith)
        requires
            sr == fr * ai + br * (255 - ai),
            sb == fb * ai + bb * (255 - ai),
    ;
    assert((fgc * 0x100) * ai + (bgc * 0x100) * (255 - ai) == sg * 0x100) by (nonlinear_arith)
        requires
            sg == fgc * ai + bgc * (255 - ai),
    ;
    let rb = (sr * 0x10000 + sb) as u32;
    let g = (sg * 0x100) as u32;
    lemma_masks(rb);
    lemma_masks(g);
    assert(rb / 256 == (sr / 256) * 0x10000 + (sr % 256) * 0x100 + sb / 256);
    lemma_pack((sr / 256) as u32, (sr % 256) as u32, (sb / 256) as u32);
    assert((rb >> 8u32) & 0xFF00FF == (sr / 256) * 0x10000 + sb / 256);
    assert(g / 256 == sg);
    lemma_masks(sg as u32);
    assert((g >> 8u32) & 0x00FF00 == (sg / 256) * 0x100);
    lemma_pack((sr / 256) as u32, (sg / 256) as u32, (sb / 256) as u32);
}

impl Color {
    pub fn from_rgb(red: u32, green: u32, blue: u32) -> (c: Color)
        ensures
            c == (Color { red, green, blue, alpha: 255 }),
    {
        Color { red, green, blue, alpha: 255 }
    }

    pub fn from_rgba(red: u32, green: u32, blue: u32, alpha: u32) -> (c: Color)
        ensures
            c == (Color { red, green, blue, alpha }),
    {
        Color { red, green, blue, alpha }
    }

    pub open spec fn rgb(self) -> u32 {
        pack_rgb(self.red, self.green, self.blue)
    }

    pub open spec fn argb(self) -> u32 {
        pack_argb(self.alpha, self.red, self.green, self.blue)
    }

    /// The colour as the `0x00RRGGBB` word of a frame buffer.
    pub fn to_hex_rgb(&self) -> (v: u32)
        ensures
            v == self.rgb(),
    {
        ((self.red & 0xFF) << 16) | ((self.green & 0xFF) << 8) | (self.blue & 0xFF)
    }

    /// The colour as an `0xAARRGGBB` word.
    pub fn to_hex_rgba(&self) -> (v: u32)
        ensures
            v == self.argb(),
    {
        ((self.alpha & 0xFF) << 24) | self.to_hex_rgb()
    }

    /// The colour as an `0xAARRGGBB` word, the foreground of a blend.
    pub fn to_u32_argb(&self) -> (v: u32)
        ensures
            v == self.argb(),
    {
        self.to_hex_rgba()
    }
}

} // verus!
