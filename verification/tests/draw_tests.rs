use laberinto::draw::{cell_to_texture_color, draw_maze, drawcell, render_box, render_column, render_marker, render_screen, render_sprite, sprite_fits, FLOOR, OFF_SCREEN_WALL, SKY, WHITE};
use laberinto::framebuffer::Framebuffer;
use laberinto::text::{render_fps, text_format};
use laberinto::texture::Texture;

fn pixel(fb: &Framebuffer, x: usize, y: usize) -> u32 {
    fb.buffer[(fb.height - 1 - y) * fb.width + x]
}

fn painted(fb: &Framebuffer, color: u32) -> Vec<(usize, usize)> {
    let mut out = Vec::new();
    for y in 0..fb.height {
        for x in 0..fb.width {
            if pixel(fb, x, y) == color {
                out.push((x, y));
            }
        }
    }
    out
}

fn grid(rows: &[&str]) -> Vec<Vec<char>> {
    rows.iter().map(|r| r.chars().collect()).collect()
}

#[test]
fn render_box_takes_row_then_column() {
    let mut fb = Framebuffer::new(6, 6);
    // rows 1..3, columns 2..5
    render_box(&mut fb, 1, 2, 3, 2, 9);
    assert_eq!(painted(&fb, 9), vec![(2, 1), (3, 1), (4, 1), (2, 2), (3, 2), (4, 2)]);
}

#[test]
fn render_box_is_clipped_and_empty_box_draws_nothing() {
    let mut fb = Framebuffer::new(3, 3);
    render_box(&mut fb, 2, 2, 5, 5, 4);
    assert_eq!(painted(&fb, 4), vec![(2, 2)]);
    render_box(&mut fb, 0, 0, 0, 3, 8);
    render_box(&mut fb, 0, 0, 3, 0, 8);
    assert!(painted(&fb, 8).is_empty());
}

#[test]
fn drawcell_draws_walls_only() {
    let mut fb = Framebuffer::new(4, 4);
    drawcell(&mut fb, 1, 1, 2, ' ');
    assert!(painted(&fb, WHITE).is_empty());
    drawcell(&mut fb, 1, 1, 2, '#');
    assert_eq!(painted(&fb, WHITE), vec![(1, 1), (2, 1), (1, 2), (2, 2)]);
}

#[test]
fn draw_maze_draws_each_wall_block() {
    let mut fb = Framebuffer::new(6, 6);
    let maze = grid(&["# ", " #", "#"]);
    draw_maze(&mut fb, &maze, 1, 0, 2);
    let mut expected = Vec::new();
    for y in 0..6 {
        for x in 0..6 {
            let wall = x >= 1 && match maze.get(y / 2).and_then(|r| r.get((x - 1) / 2)) {
                Some(&c) => c != ' ',
                None => false,
            };
            if wall {
                expected.push((x, y));
            }
        }
    }
    assert_eq!(painted(&fb, WHITE), expected);
    assert_eq!(expected.len(), 12);
}

fn texture_2x2() -> Texture {
    // (0,0) red, (1,0) white, (0,1) blue, (1,1) 0x0A141E
    Texture::from_rgb(2, 2, vec![255, 0, 0, 255, 255, 255, 0, 0, 255, 10, 20, 30])
}

#[test]
fn render_screen_copies_the_overlap() {
    let mut fb = Framebuffer::new(3, 1);
    render_screen(&mut fb, &texture_2x2());
    assert_eq!(pixel(&fb, 0, 0), 0xFF0000);
    assert_eq!(pixel(&fb, 1, 0), 0xFFFFFF);
    assert_eq!(pixel(&fb, 2, 0), 0);
}

#[test]
fn render_sprite_skips_white() {
    let mut fb = Framebuffer::new(4, 4);
    fb.set_background_color(7);
    fb.clear();
    render_sprite(&mut fb, &texture_2x2(), 1, 3, 1, 3, 128);
    assert_eq!(pixel(&fb, 1, 1), 0xFF0000);
    assert_eq!(pixel(&fb, 2, 1), 7);
    assert_eq!(pixel(&fb, 1, 2), 0x0000FF);
    assert_eq!(pixel(&fb, 2, 2), 0x0A141E);
    assert_eq!(painted(&fb, 7).len(), 13);
}

#[test]
fn render_sprite_scales_down() {
    let mut fb = Framebuffer::new(2, 1);
    // size 256: texture column (x * 128) / 256, so both pixels read column 0
    render_sprite(&mut fb, &texture_2x2(), 0, 2, 0, 1, 256);
    assert_eq!(pixel(&fb, 0, 0), 0xFF0000);
    assert_eq!(pixel(&fb, 1, 0), 0xFF0000);
}

#[test]
fn render_marker_keeps_inside_of_clip() {
    let mut fb = Framebuffer::new(8, 8);
    render_marker(&mut fb, 3, 3, 4, 0, 0, 5, 0xFFFF00);
    assert_eq!(painted(&fb, 0xFFFF00), vec![(3, 3), (4, 3), (3, 4), (4, 4)]);
}

#[test]
fn wall_color_reads_the_texture() {
    let t = texture_2x2();
    assert_eq!(cell_to_texture_color(&t, '#', 1, 1), 0x0A141E);
    assert_eq!(cell_to_texture_color(&t, 'x', 0, 1), 0x0000FF);
    assert_eq!(cell_to_texture_color(&t, '#', 5, 0), 0xFFFFFF);
}

fn glyphs() -> Vec<Vec<char>> {
    // label: row 5 is "#"; digit 0: rows 5..=10; digit 1: rows 11..=16, row 11 is " #"
    let mut rows = vec![String::new(); 17];
    rows[5] = "#".to_string();
    rows[11] = " #".to_string();
    rows.iter().map(|r| r.chars().collect()).collect()
}

fn block(x0: usize, y0: usize) -> Vec<(usize, usize)> {
    let mut v = Vec::new();
    for y in y0..y0 + 3 {
        for x in x0..x0 + 3 {
            v.push((x, y));
        }
    }
    v
}

#[test]
fn text_format_draws_label_and_digits() {
    let mut fb = Framebuffer::new(220, 30);
    text_format(&mut fb, &glyphs(), 10, 0x00FF00);
    // label row 5 at grid (50, 7); digit 1 first (grid (65 + 1, 1));
    // digit 0 second: its first row is label row 5, at grid (65 + 4, 1)
    let mut expected = block(150, 21);
    expected.extend(block(198, 3));
    expected.extend(block(207, 3));
    expected.sort_by_key(|&(x, y)| (y, x));
    assert_eq!(painted(&fb, 0x00FF00), expected);
}

#[test]
fn render_fps_is_white_and_sets_current_color() {
    let mut fb = Framebuffer::new(220, 30);
    render_fps(&mut fb, &glyphs(), 0);
    assert_eq!(fb.current_color, 0xFFFFFF);
    let mut expected = block(150, 21);
    expected.extend(block(195, 3));
    expected.sort_by_key(|&(x, y)| (y, x));
    assert_eq!(painted(&fb, WHITE), expected);
}

#[test]
fn render_column_draws_sky_wall_and_floor() {
    let mut fb = Framebuffer::new(2, 6);
    render_column(&mut fb, 1, 2, 4, &texture_2x2(), '#', 0, &vec![0, 1]);
    let column: Vec<u32> = (0..6).map(|y| pixel(&fb, 1, y)).collect();
    assert_eq!(column, vec![SKY, SKY, 0xFF0000, 0x0000FF, FLOOR, FLOOR]);
    assert!((0..6).all(|y| pixel(&fb, 0, y) == 0));
}

#[test]
fn render_column_off_screen_wall_is_flat() {
    let mut fb = Framebuffer::new(1, 6);
    render_column(&mut fb, 0, 1, 9, &texture_2x2(), '#', 0, &vec![]);
    let column: Vec<u32> = (0..6).map(|y| pixel(&fb, 0, y)).collect();
    assert_eq!(column, vec![0, OFF_SCREEN_WALL, OFF_SCREEN_WALL, OFF_SCREEN_WALL, OFF_SCREEN_WALL, OFF_SCREEN_WALL]);
}

#[test]
fn wall_color_does_not_depend_on_the_cell() {
    let t = texture_2x2();
    for &c in &['#', ' ', '+', '|', 'x'] {
        assert_eq!(cell_to_texture_color(&t, c, 0, 0), 0xFF0000);
        assert_eq!(cell_to_texture_color(&t, c, 1, 1), 0x0A141E);
    }
}

#[test]
fn render_fps_draws_what_white_text_format_draws() {
    for num in [0usize, 1, 10, 101] {
        let mut shown = Framebuffer::new(260, 30);
        let mut written = Framebuffer::new(260, 30);
        render_fps(&mut shown, &glyphs_all(), num);
        text_format(&mut written, &glyphs_all(), num, WHITE);
        assert_eq!(shown.buffer, written.buffer);
        assert_eq!(shown.current_color, WHITE);
        assert_eq!(written.current_color, 0);
    }
}

fn glyphs_all() -> Vec<Vec<char>> {
    // a label and a distinct glyph for each digit that the tests show
    let mut rows = vec![String::new(); 17];
    rows[0] = "##".to_string();
    rows[5] = "#".to_string();
    rows[11] = " #".to_string();
    rows[13] = "# #".to_string();
    rows.iter().map(|r| r.chars().collect()).collect()
}

#[test]
fn sprite_fits_finds_lookups_on_the_edge() {
    let t = texture_2x2();
    // size 128: texture columns 0 and 1 are read, both inside
    assert!(sprite_fits(&t, 1, 3, 1, 3, 128));
    // three columns read column 2, the edge of a 2 pixel wide texture
    assert!(!sprite_fits(&t, 0, 3, 0, 1, 128));
    assert!(!sprite_fits(&t, 0, 1, 0, 3, 128));
    // size 64: columns 0, 2, 4 are read; 2 is the edge
    assert!(!sprite_fits(&t, 0, 3, 0, 1, 64));
    // size 32: rows 0 and 4 are read, both answered (4 is beyond the edge)
    assert!(sprite_fits(&t, 0, 1, 0, 2, 32));
    // a zero size with something to draw, and nothing to draw
    assert!(!sprite_fits(&t, 0, 1, 0, 1, 0));
    assert!(sprite_fits(&t, 3, 3, 0, 1, 0));
    assert!(!sprite_fits(&t, 0, usize::MAX, 0, 1, 128));
}
