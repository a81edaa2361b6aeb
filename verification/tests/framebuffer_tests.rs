use laberinto::framebuffer::{extract_color_component, Color, Framebuffer};

fn pixel(fb: &Framebuffer, x: usize, y: usize) -> u32 {
    fb.buffer[(fb.height - 1 - y) * fb.width + x]
}

#[test]
fn new_framebuffer_is_black_with_default_colors() {
    let fb = Framebuffer::new(4, 3);
    assert_eq!(fb.width(), 4);
    assert_eq!(fb.height(), 3);
    assert_eq!(fb.buffer.len(), 12);
    assert!(fb.buffer.iter().all(|&c| c == 0));
    assert_eq!(fb.background_color, 0xFFFFFF);
    assert_eq!(fb.current_color, 0x000000);
    assert_eq!(fb.line_color, 0xFFFFFF);
}

#[test]
fn point_stores_rows_from_the_top() {
    let mut fb = Framebuffer::new(4, 3);
    fb.point(1, 0, 0xABCDEF);
    // y = 0 is the bottom row, kept last in the buffer
    assert_eq!(fb.buffer[2 * 4 + 1], 0xABCDEF);
    fb.point(3, 2, 0x123456);
    assert_eq!(fb.buffer[3], 0x123456);
    assert_eq!(pixel(&fb, 1, 0), 0xABCDEF);
    assert_eq!(fb.buffer.iter().filter(|&&c| c != 0).count(), 2);
}

#[test]
fn point_outside_is_ignored() {
    let mut fb = Framebuffer::new(4, 3);
    fb.point(4, 0, 7);
    fb.point(0, 3, 7);
    fb.point(usize::MAX, usize::MAX, 7);
    assert!(fb.buffer.iter().all(|&c| c == 0));
}

#[test]
fn point_on_empty_framebuffer_is_ignored() {
    let mut fb = Framebuffer::new(0, 0);
    fb.point(0, 0, 7);
    assert!(fb.buffer.is_empty());
}

#[test]
fn clear_paints_background() {
    let mut fb = Framebuffer::new(3, 2);
    fb.point(0, 0, 5);
    fb.clear();
    assert!(fb.buffer.iter().all(|&c| c == 0xFFFFFF));
    fb.set_background_color(0x102030);
    fb.clear();
    assert!(fb.buffer.iter().all(|&c| c == 0x102030));
}

#[test]
fn setters_change_only_their_color() {
    let mut fb = Framebuffer::new(2, 2);
    fb.set_current_color(1);
    fb.set_line_color(2);
    fb.set_background_color(3);
    assert_eq!((fb.background_color, fb.current_color, fb.line_color), (3, 1, 2));
    assert!(fb.buffer.iter().all(|&c| c == 0));
}

#[test]
fn extract_components() {
    assert_eq!(extract_color_component(0x123456, 16), 0x12);
    assert_eq!(extract_color_component(0x123456, 8), 0x34);
    assert_eq!(extract_color_component(0x123456, 0), 0x56);
    assert_eq!(extract_color_component(0xFFFFA500, 24), 0xFF);
    assert_eq!(extract_color_component(0xFFFFA500, 31), 1);
}

#[test]
fn render_buffer_splits_every_pixel() {
    let mut fb = Framebuffer::new(2, 1);
    fb.point(0, 0, 0x0A0B0C);
    fb.point(1, 0, 0xFF8001);
    let colors = fb.render_buffer();
    assert_eq!(colors, vec![Color::new(0x0A, 0x0B, 0x0C), Color::new(0xFF, 0x80, 0x01)]);
}

#[test]
fn packed_channels_split_back() {
    for &(r, g, b) in &[(0u8, 0u8, 0u8), (255, 255, 255), (1, 2, 3), (200, 0, 99)] {
        let packed = ((r as u32) << 16) | ((g as u32) << 8) | (b as u32);
        assert_eq!(extract_color_component(packed, 16), r);
        assert_eq!(extract_color_component(packed, 8), g);
        assert_eq!(extract_color_component(packed, 0), b);
    }
}
