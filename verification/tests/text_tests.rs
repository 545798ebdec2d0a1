use kernel_core::text::{check_screen_refresh_for_print, move_cursor_back, reset_print_color, set_print_color, text_color_to_rgb, ScreenChars, TextColor, Writer};
use kernel_core::scheduler::{scheduler_next_proc, CpuData, ProcTable, ProcessState};

#[test]
fn colors() {
    assert_eq!(text_color_to_rgb(TextColor::Brown), (170, 85, 0));
    assert_eq!(text_color_to_rgb(TextColor::White), (255, 255, 255));
}

#[test]
fn writer_writes_wraps_and_scrolls() {
    let mut screen = ScreenChars::new(3, 2);
    let mut w = Writer::new();
    w.write_byte(&mut screen, b'a');
    w.write_byte(&mut screen, b'b');
    assert_eq!(screen.get_char(0, 1).0, b'a');
    assert_eq!(screen.get_char(1, 1).0, b'b');
    assert_eq!(w.x, 2);
    w.write_byte(&mut screen, b'c');
    assert_eq!(w.x, 0);
    assert_eq!(screen.get_char(2, 0).0, b'c');
    assert_eq!(screen.get_char(0, 1).0, b' ');
    w.write_byte(&mut screen, b'x');
    w.write_byte(&mut screen, b'\r');
    assert_eq!(w.x, 0);
    assert_eq!(screen.get_char(0, 1).0, b' ');
    assert_eq!(screen.get_char(0, 0).0, b'a');
    w.write_byte(&mut screen, b'\n');
    assert_eq!(screen.get_char(0, 0).0, b' ');
    set_print_color(&mut w, TextColor::Red, TextColor::Blue);
    w.write_byte(&mut screen, b'q');
    assert!(screen.get_char(0, 1) == (b'q', TextColor::Red, TextColor::Blue));
    move_cursor_back(&mut w);
    assert_eq!(w.x, 0);
    move_cursor_back(&mut w);
    assert_eq!(w.x, 0);
    reset_print_color(&mut w);
    assert!(w.text_color == TextColor::White && w.background_color == TextColor::Black);
}

#[test]
fn refresh_only_on_core_zero_after_interval() {
    let mut last = 0u64;
    assert!(!check_screen_refresh_for_print(1, 100, &mut last, true));
    assert!(!check_screen_refresh_for_print(0, 50, &mut last, true));
    assert!(!check_screen_refresh_for_print(0, 100, &mut last, false));
    assert!(check_screen_refresh_for_print(0, 51, &mut last, true));
    assert_eq!(last, 51);
}

#[test]
fn process_table_life_cycle() {
    let mut cpu = CpuData::new();
    scheduler_next_proc(&mut cpu);
    assert_eq!(cpu.curr_pid, 1001 % 16);
    let mut t = ProcTable::new();
    assert_eq!(t.get_num_processes(), 0);
    let a = t.add_process();
    let b = t.add_process();
    assert_eq!((a, b), (0, 1));
    assert_eq!(t.get_num_processes(), 2);
    assert!(!t.try_schedule(a, 0));
    t.mark_process_ready(a);
    assert!(t.try_schedule(a, 0));
    t.put_process_to_sleep(b, 10);
    assert!(!t.try_schedule(b, 9));
    assert!(t.try_schedule(b, 10));
    t.terminate_process(a);
    assert_eq!(t.get_num_processes(), 1);
    assert_eq!(t.get_free_proc(), 0);
    t.refresh_paging_for_proc(b);
    let _ = ProcessState::Running;
}

use kernel_core::text::{draw_char, init_text_renderer, render_text_to_screen, set_pixel, Font, Framebuffer, BORDER_PADDING};

fn test_font() -> Font {
    // 4 pixels wide, 2 rows high; 'A' has its left pixel lit in row 0 and its
    // right pixel lit in row 1; every other glyph is empty.
    let mut rows = vec![0u8; 256 * 2];
    rows[b'A' as usize * 2] = 0b1000;
    rows[b'A' as usize * 2 + 1] = 0b0001;
    Font { width: 4, height: 2, rows }
}

fn blank_fb(width: usize, height: usize) -> Framebuffer {
    Framebuffer { width, height, pixels: vec![7u32; width * height] }
}

#[test]
fn set_pixel_packs_rgb() {
    let mut fb = blank_fb(3, 2);
    set_pixel(&mut fb, 2, 1, (0x12, 0x34, 0x56));
    assert_eq!(fb.pixels[5], 0x0012_3456);
    assert_eq!(fb.pixels[4], 7);
}

#[test]
fn draw_char_fills_its_block() {
    let font = test_font();
    let mut fb = blank_fb(BORDER_PADDING * 2 + 8, BORDER_PADDING * 2 + 4);
    let w = fb.width;
    draw_char(&mut fb, &font, 1, 1, b'A', (255, 0, 0), (0, 0, 255));
    let at = |x: usize, y: usize, fb: &Framebuffer| fb.pixels[y * w + x];
    let sx = BORDER_PADDING + 4;
    let sy = BORDER_PADDING + 2;
    assert_eq!(at(sx, sy, &fb), 0xff0000);
    assert_eq!(at(sx + 1, sy, &fb), 0x0000ff);
    assert_eq!(at(sx + 3, sy + 1, &fb), 0xff0000);
    assert_eq!(at(sx, sy + 1, &fb), 0x0000ff);
    assert_eq!(at(sx - 1, sy, &fb), 7);
    assert_eq!(at(0, 0, &fb), 7);
}

#[test]
fn render_draws_every_cell() {
    let font = test_font();
    let mut screen = ScreenChars::new(2, 2);
    screen.set_char(1, 0, b'A', TextColor::Red, TextColor::Blue);
    let mut fb = blank_fb(BORDER_PADDING * 2 + 8, BORDER_PADDING * 2 + 4);
    let w = fb.width;
    render_text_to_screen(&screen, &font, &mut fb);
    let p = |x: usize, y: usize| fb.pixels[(BORDER_PADDING + y) * w + BORDER_PADDING + x];
    // cell (1, 0) shows 'A' in red on blue
    assert_eq!(p(4, 0), 0xaa0000);
    assert_eq!(p(5, 0), 0x0000aa);
    assert_eq!(p(7, 1), 0xaa0000);
    // blank cells show the black background
    assert_eq!(p(0, 0), 0);
    assert_eq!(p(3, 3), 0);
    // the border is untouched
    assert_eq!(fb.pixels[0], 7);
    assert_eq!(fb.pixels[w * (BORDER_PADDING + 4)], 7);
}

#[test]
fn text_grid_fits_inside_the_border() {
    let screen = init_text_renderer(800, 600, 16);
    assert_eq!(screen.get_screen_width_chars(), (800 - 16) / 16);
    assert_eq!(screen.get_screen_height_chars(), (600 - 16) / 16);
    assert_eq!(screen.get_char(3, 4), (b' ', TextColor::White, TextColor::Black));
}
