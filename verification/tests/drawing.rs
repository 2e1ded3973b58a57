use remote_window::bytes::ByteOrder;
use remote_window::color::Color;
use remote_window::screen::{Glyph, ScreenBuffer};

fn screen(w: usize, h: usize) -> ScreenBuffer {
    ScreenBuffer::new(w, h)
}

#[test]
fn new_is_black() {
    let s = screen(4, 3);
    assert_eq!(s.width, 4);
    assert_eq!(s.height, 3);
    assert_eq!(s.buffer, vec![0; 12]);
    assert_eq!(s.calc_buf_pos(1, 2), 9);
}

#[test]
fn colour_words() {
    let c = Color::from_rgba(0x12, 0x34, 0x56, 0x78);
    assert_eq!(c.to_hex_rgb(), 0x123456);
    assert_eq!(c.to_hex_rgba(), 0x78123456);
    assert_eq!(c.to_u32_argb(), 0x78123456);
    assert_eq!(Color::from_rgb(1, 2, 3).alpha, 255);
}

#[test]
fn put_pixel_in_and_out_of_range() {
    let mut s = screen(3, 2);
    s.put_pixel(2, 1, Color::from_rgb(255, 0, 0));
    assert_eq!(s.buffer[5], 0xFF0000);
    s.put_pixel(0, 2, Color::from_rgb(255, 0, 0));
    assert_eq!(s.buffer, vec![0, 0, 0, 0, 0, 0xFF0000]);
    s.put_pixel_a(0, 0, Color::from_rgba(1, 2, 3, 4));
    assert_eq!(s.buffer[0], 0x04010203);
}

#[test]
fn rect_fills_only_its_pixels() {
    let mut s = screen(4, 4);
    s.draw_rect(1, 1, 2, 2, Color::from_rgb(0, 0, 9));
    let expected: Vec<u32> = (0..16)
        .map(|i| if (i / 4 == 1 || i / 4 == 2) && (i % 4 == 1 || i % 4 == 2) { 9 } else { 0 })
        .collect();
    assert_eq!(s.buffer, expected);
}

#[test]
fn clear_fills_everything() {
    let mut s = screen(3, 3);
    s.clear(Color::from_rgb(1, 1, 1));
    assert_eq!(s.buffer, vec![0x010101; 9]);
}

#[test]
fn blend_extremes_and_middle() {
    let s = screen(1, 1);
    assert_eq!(s.blend_pixels(0x112233, 0xAABBCC, 255), 0xAABBCC);
    assert_eq!(s.blend_pixels(0x112233, 0xAABBCC, 0), 0x112233);
    let fg = 0x00FF8040u32;
    let bg = 0x00204060u32;
    let a = 100u32;
    let mix = |f: u32, b: u32| (f * a + b * (255 - a)) / 256;
    let expected = (mix(0xFF, 0x20) << 16) | (mix(0x80, 0x40) << 8) | mix(0x40, 0x60);
    assert_eq!(s.blend_pixels(bg, fg, 100), expected);
    assert_eq!(s.blend_pixels(0xFF000000, 0xFF000000, 128) >> 24, 0);
}

#[test]
fn alpha_rect_blends_on_screen_part() {
    let mut s = screen(3, 2);
    s.buffer = vec![0x000000, 0x0000FF, 0x00FF00, 0xFF0000, 0xFFFFFF, 0x808080];
    let before = s.buffer.clone();
    s.draw_rect_alpha(1, 0, 5, 1, Color::from_rgba(255, 255, 255, 128));
    let probe = screen(1, 1);
    assert_eq!(s.buffer[0], before[0]);
    assert_eq!(s.buffer[1], probe.blend_pixels(before[1], 0x80FFFFFF, 128));
    assert_eq!(s.buffer[2], probe.blend_pixels(before[2], 0x80FFFFFF, 128));
    assert_eq!(&s.buffer[3..], &before[3..]);
}

#[test]
fn bitmap_copies_rows() {
    let mut s = screen(3, 3);
    s.draw_bitmap(vec![vec![1, 2], vec![3], vec![]]);
    assert_eq!(s.buffer, vec![1, 2, 0, 3, 0, 0, 0, 0, 0]);
}

#[test]
fn image_rgb_and_rgba() {
    let mut s = screen(3, 3);
    s.draw_image(vec![1, 2, 3, 4, 5, 6], 2, 1, 0);
    assert_eq!(&s.buffer[0..2], &[0x010203, 0x040506]);
    let mut t = screen(3, 3);
    t.draw_image(vec![1, 2, 3, 9], 1, 1, 1);
    assert_eq!(t.buffer[4], 0x09010203);
    assert_eq!(t.buffer.iter().filter(|&&p| p != 0).count(), 1);
}

#[test]
fn two_loop_line() {
    let mut s = screen(6, 6);
    s.draw_line(0, 0, 4, 2, Color::from_rgb(0, 0, 1));
    let lit: Vec<usize> = (0..36).filter(|&i| s.buffer[i] == 1).collect();
    // first loop: (0,0) (1,0) (2,1) (3,1); second loop: x = 0 + 4*(y-0)/2 -> (0,0) (2,1)
    assert_eq!(lit, vec![0, 1, 8, 9]);
}

#[test]
fn bresenham_line_joins_ends() {
    let mut s = screen(8, 8);
    s.draw_line_safe(6, 1, 1, 4, Color::from_rgb(0, 0, 1));
    let lit: Vec<(usize, usize)> =
        (0..64).filter(|&i| s.buffer[i] == 1).map(|i| (i % 8, i / 8)).collect();
    assert!(lit.contains(&(6, 1)));
    assert!(lit.contains(&(1, 4)));
    assert_eq!(lit.len(), 6);
    let mut d = screen(4, 4);
    d.draw_line_safe(2, 2, 2, 2, Color::from_rgb(0, 0, 1));
    assert_eq!(d.buffer.iter().filter(|&&p| p == 1).count(), 1);
    let mut diag = screen(4, 4);
    diag.draw_line_safe(0, 0, 3, 3, Color::from_rgb(0, 0, 1));
    assert_eq!(diag.buffer[0], 1);
    assert_eq!(diag.buffer[5], 1);
    assert_eq!(diag.buffer[10], 1);
    assert_eq!(diag.buffer[15], 1);
}

#[test]
fn bresenham_line_shape() {
    let mut s = screen(8, 4);
    s.draw_line_safe(0, 0, 5, 2, Color::from_rgb(0, 0, 1));
    let lit: Vec<(usize, usize)> =
        (0..32).filter(|&i| s.buffer[i] == 1).map(|i| (i % 8, i / 8)).collect();
    assert_eq!(lit.len(), 6);
    let mut xs: Vec<usize> = lit.iter().map(|p| p.0).collect();
    xs.sort();
    assert_eq!(xs, vec![0, 1, 2, 3, 4, 5]);
    let mut far = screen(4, 4);
    far.draw_line_safe(1 << 29, 0, 1 << 29, 0, Color::from_rgb(0, 0, 1));
    assert!(far.buffer.iter().all(|&p| p == 0));
    let mut long = screen(4, 4);
    long.draw_line_safe(1 << 30, 1, (1 << 30) - 3, 1, Color::from_rgb(0, 0, 1));
    assert!(long.buffer.iter().all(|&p| p == 0));
}

fn glyph() -> Glyph {
    Glyph { width: 2, height: 2, xmin: 0, ymin: 0, bitmap: vec![255, 0, 0, 128], font_size: 3 }
}

#[test]
fn opaque_char() {
    let mut s = screen(4, 4);
    s.draw_char(&glyph(), 1, 0, Color::from_rgb(0, 0, 7), Color::from_rgb(0, 0, 2));
    // offset below the pen: |ymin| + (font_size - height) = 1
    assert_eq!(s.buffer[1 * 4 + 1], 7);
    assert_eq!(s.buffer[1 * 4 + 2], 2);
    assert_eq!(s.buffer[2 * 4 + 1], 2);
    assert_eq!(s.buffer[2 * 4 + 2], 7);
    assert_eq!(s.buffer.iter().filter(|&&p| p != 0).count(), 4);
}

#[test]
fn transparent_char() {
    let mut s = screen(4, 4);
    s.buffer = vec![0x101010; 16];
    s.draw_char_transparent(&glyph(), 0, 0, Color::from_rgba(0xFF, 0xFF, 0xFF, 0xFF));
    assert_eq!(s.buffer[1 * 4], 0xFFFFFFFF);
    assert_eq!(s.buffer[1 * 4 + 1], 0x101010);
    let probe = screen(1, 1);
    assert_eq!(s.buffer[2 * 4 + 1], probe.blend_pixels(0x101010, 0xFFFFFFFF, 128));
}

#[test]
fn read_and_write_bytes() {
    let mut s = screen(2, 2);
    s.buffer = vec![0x1FF, 2, 3, 4];
    let mut out = [0u8; 3];
    assert_eq!(s.read(&mut out), 3);
    assert_eq!(out, [0xFF, 2, 3]);
    assert_eq!(s.write(&[9, 8]), 2);
    assert_eq!(s.buffer, vec![9, 8, 3, 4]);
}

#[test]
fn frame_bytes_to_screen() {
    let s = ScreenBuffer::from_frame_bytes(2, 1, &[1, 0, 0, 0, 0, 0, 1, 0], ByteOrder::Little);
    assert_eq!(s.buffer, vec![1, 0x10000]);
    let b = ScreenBuffer::from_frame_bytes(2, 1, &[1, 0, 0, 0, 0, 0, 1, 0], ByteOrder::Big);
    assert_eq!(b.buffer, vec![0x0100_0000, 0x100]);
}

#[test]
fn bitmap_sets_only_its_cells() {
    let mut s = screen(3, 3);
    s.buffer = vec![9; 9];
    s.draw_bitmap(vec![vec![1, 2], vec![3]]);
    assert_eq!(s.buffer, vec![1, 2, 9, 3, 9, 9, 9, 9, 9]);
}
