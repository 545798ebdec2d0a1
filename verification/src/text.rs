use vstd::prelude::*;

verus! {

/// The sixteen text colors of the console.
#[derive(Clone, Copy, PartialEq, Eq, Structural, Debug)]
pub enum TextColor {
    Black,
    Blue,
    Green,
    Cyan,
    Red,
    Magenta,
    Brown,
    LightGray,
    DarkGray,
    LightBlue,
    LightGreen,
    LightCyan,
    LightRed,
    Pink,
    Yellow,
    White,
}

/// The RGB value of a text color.
pub open spec fn spec_text_color_to_rgb(color: TextColor) -> (u8, u8, u8) {
    match color {
        TextColor::Black => (0u8, 0u8, 0u8),
        TextColor::Blue => (0u8, 0u8, 170u8),
        TextColor::Green => (0u8, 170u8, 0u8),
        TextColor::Cyan => (0u8, 170u8, 170u8),
        TextColor::Red => (170u8, 0u8, 0u8),
        TextColor::Magenta => (170u8, 0u8, 170u8),
        TextColor::Brown => (170u8, 85u8, 0u8),
        TextColor::LightGray => (170u8, 170u8, 170u8),
        TextColor::DarkGray => (85u8, 85u8, 85u8),
        TextColor::LightBlue => (85u8, 85u8, 255u8),
        TextColor::LightGreen => (85u8, 255u8, 85u8),
        TextColor::LightCyan => (85u8, 255u8, 255u8),
        TextColor::LightRed => (255u8, 85u8, 85u8),
        TextColor::Pink => (255u8, 85u8, 255u8),
        TextColor::Yellow => (255u8, 255u8, 85u8),
        TextColor::White => (255u8, 255u8, 255u8),
    }
}

/// The color's number in the 16-color VGA palette: the order in which the colors are
/// declared.
pub open spec fn vga_number(color: TextColor) -> int {
    match color {
        TextColor::Black => 0,
        TextColor::Blue => 1,
        TextColor::Green => 2,
        TextColor::Cyan => 3,
        TextColor::Red => 4,
        TextColor::Magenta => 5,
        TextColor::Brown => 6,
        TextColor::LightGray => 7,
        TextColor::DarkGray => 8,
        TextColor::LightBlue => 9,
        TextColor::LightGreen => 10,
        TextColor::LightCyan => 11,
        TextColor::LightRed => 12,
        TextColor::Pink => 13,
        TextColor::Yellow => 14,
        TextColor::White => 15,
    }
}

/// The standard VGA palette entry `i`: each of the red (bit 2), green (bit 1) and blue
/// (bit 0) bits gives its channel 170, the intensity bit (bit 3) adds 85 to every
/// channel, and entry 6 (brown) has its green halved to 85.
pub open spec fn vga_palette(i: int) -> (int, int, int) {
    let bright = 85 * (i / 8);
    let red = 170 * ((i / 4) % 2) + bright;
    let green = if i == 6 {
        85
    } else {
        170 * ((i / 2) % 2) + bright
    };
    let blue = 170 * (i % 2) + bright;
    (red, green, blue)
}

/// Every text color is drawn in its standard VGA palette value.
pub proof fn lemma_text_colors_are_vga_palette(color: TextColor)
    ensures
        spec_text_color_to_rgb(color).0 == vga_palette(vga_number(color)).0,
        spec_text_color_to_rgb(color).1 == vga_palette(vga_number(color)).1,
        spec_text_color_to_rgb(color).2 == vga_palette(vga_number(color)).2,
{
}

/// No two text colors are drawn alike.
pub proof fn lemma_text_color_to_rgb_injective(a: TextColor, b: TextColor)
    requires
        spec_text_color_to_rgb(a) == spec_text_color_to_rgb(b),
    ensures
        a == b,
{
}

/// The RGB value of a text color.
pub fn text_color_to_rgb(color: TextColor) -> (r: (u8, u8, u8))
    ensures
        r == spec_text_color_to_rgb(color),
{
    match color {
        TextColor::Black => (0u8, 0u8, 0u8),
        TextColor::Blue => (0u8, 0u8, 170u8),
        TextColor::Green => (0u8, 170u8, 0u8),
        TextColor::Cyan => (0u8, 170u8, 170u8),
        TextColor::Red => (170u8, 0u8, 0u8),
        TextColor::Magenta => (170u8, 0u8, 170u8),
        TextColor::Brown => (170u8, 85u8, 0u8),
        TextColor::LightGray => (170u8, 170u8, 170u8),
        TextColor::DarkGray => (85u8, 85u8, 85u8),
        TextColor::LightBlue => (85u8, 85u8, 255u8),
        TextColor::LightGreen => (85u8, 255u8, 85u8),
        TextColor::LightCyan => (85u8, 255u8, 255u8),
        TextColor::LightRed => (255u8, 85u8, 85u8),
        TextColor::Pink => (255u8, 85u8, 255u8),
        TextColor::Yellow => (255u8, 255u8, 85u8),
        TextColor::White => (255u8, 255u8, 255u8),
    }
}

/// A character cell: the byte and its text and background colors.
pub type Cell = (u8, TextColor, TextColor);

/// The cell that scrolling brings in.
pub open spec fn blank_cell() -> Cell {
    (32u8, TextColor::White, TextColor::Black)
}

/// The screen moved up by one row of `width` cells, with a blank row at the bottom.
pub open spec fn scrolled(s: Seq<Cell>, width: int) -> Seq<Cell> {
    Seq::new(s.len(), |i: int| if i + width < s.len() { s[i + width] } else { blank_cell() })
}

/// The bottom row of `width` cells filled with `cell`.
pub open spec fn with_bottom_row(s: Seq<Cell>, width: int, cell: Cell) -> Seq<Cell> {
    Seq::new(s.len(), |i: int| if i + width >= s.len() { cell } else { s[i] })
}

/// The console's grid of character cells, row by row.
pub struct ScreenChars {
    chars: Vec<Cell>,
    width: usize,
    height: usize,
}

impl View for ScreenChars {
    type V = Seq<Cell>;

    closed spec fn view(&self) -> Seq<Cell> {
        self.chars@
    }
}

impl ScreenChars {
    /// Cells in a row.
    pub closed spec fn width(&self) -> int {
        self.width as int
    }

    /// Rows.
    pub closed spec fn height(&self) -> int {
        self.height as int
    }

    /// The grid holds `width * height` cells and has at least one row and column.
    pub closed spec fn wf(&self) -> bool {
        &&& self.chars.len() == self.width * self.height
        &&& self.width >= 1
        &&& self.height >= 1
    }

    /// A blank grid of `width` by `height` cells.
    pub fn new(width: usize, height: usize) -> (r: ScreenChars)
        requires
            width >= 1,
            height >= 1,
            width * height <= usize::MAX,
        ensures
            r.wf(),
            r.width() == width,
            r.height() == height,
            r@ == Seq::new((width * height) as nat, |i: int| blank_cell()),
    {
        let n = width * height;
        let mut chars: Vec<Cell> = Vec::new();
        let mut k: usize = 0;
        while k < n
            invariant
                k <= n,
                chars@ == Seq::new(k as nat, |i: int| blank_cell()),
            decreases n - k,
        {
            chars.push((32u8, TextColor::White, TextColor::Black));
            assert(chars@ =~= Seq::new((k + 1) as nat, |i: int| blank_cell()));
            k = k + 1;
        }
        let r = ScreenChars { chars, width, height };
        assert(r@ =~= Seq::new((width * height) as nat, |i: int| blank_cell()));
        r
    }

    /// Cells in a row.
    pub fn get_screen_width_chars(&self) -> (r: usize)
        ensures
            r == self.width(),
    {
        self.width
    }

    /// Rows.
    pub fn get_screen_height_chars(&self) -> (r: usize)
        ensures
            r == self.height(),
    {
        self.height
    }

    /// Moves every row up by one; the bottom row becomes blank.
    pub fn scroll(&mut self)
        requires
            old(self).wf(),
        ensures
            final(self).wf(),
            final(self).width() == old(self).width(),
            final(self).height() == old(self).height(),
            final(self)@ == scrolled(old(self)@, old(self).width()),
    {
        let n = self.chars.len();
        let w = self.width;
        proof {
            assert(w <= n) by (nonlinear_arith)
                requires
                    n == w * self.height,
                    self.height >= 1,
                    w >= 1,
            ;
        }
        let moved = n - w;
        let mut i: usize = 0;
        while i < moved
            invariant
                self.wf(),
                self.width == old(self).width,
                self.height == old(self).height,
                n == self.chars.len(),
                w == self.width,
                moved == n - w,
                i <= moved,
                forall|k: int| 0 <= k < i ==> self@[k] == old(self)@[k + w],
                forall|k: int| i <= k < n ==> self@[k] == old(self)@[k],
            decreases moved - i,
        {
            let c = self.chars[i + w];
            assert(c == old(self)@[i + w]);
            let ghost before = self@;
            self.chars.set(i, c);
            assert(self@ == before.update(i as int, c));
            i = i + 1;
        }
        let mut j: usize = moved;
        while j < n
            invariant
                self.wf(),
                self.width == old(self).width,
                self.height == old(self).height,
                n == self.chars.len(),
                w == self.width,
                moved == n - w,
                moved <= j <= n,
                forall|k: int| 0 <= k < moved ==> self@[k] == old(self)@[k + w],
                forall|k: int| moved <= k < j ==> self@[k] == blank_cell(),
            decreases n - j,
        {
            let ghost before = self@;
            let blank: Cell = (32u8, TextColor::White, TextColor::Black);
            self.chars.set(j, blank);
            assert(self@ == before.update(j as int, blank_cell()));
            j = j + 1;
        }
        assert(self@ =~= scrolled(old(self)@, old(self).width()));
    }

    /// Writes cell (`x`, `y`).
    pub fn set_char(&mut self, x: usize, y: usize, c: u8, text_color: TextColor, background_color: TextColor)
        requires
            old(self).wf(),
            x < old(self).width(),
            y < old(self).height(),
        ensures
            final(self).wf(),
            final(self).width() == old(self).width(),
            final(self).height() == old(self).height(),
            final(self)@ == old(self)@.update(x + old(self).width() * y, (c, text_color, background_color)),
    {
        proof {
            assert(x + self.width * y < self.width * self.height) by (nonlinear_arith)
                requires
                    x < self.width,
                    y < self.height,
            ;
        }
        self.chars.set(x + self.width * y, (c, text_color, background_color));
    }

    /// The cell at (`x`, `y`).
    pub fn get_char(&self, x: usize, y: usize) -> (r: Cell)
        requires
            self.wf(),
            x < self.width(),
            y < self.height(),
        ensures
            r == self@[x + self.width() * y],
    {
        proof {
            assert(x + self.width * y < self.width * self.height) by (nonlinear_arith)
                requires
                    x < self.width,
                    y < self.height,
            ;
        }
        self.chars[x + self.width * y]
    }
}

/// The text cursor of the console: its column on the bottom row and its colors.
pub struct Writer {
    pub x: usize,
    pub text_color: TextColor,
    pub background_color: TextColor,
}

impl Writer {
    /// A cursor at the start of the row, white on black.
    pub fn new() -> (r: Writer)
        ensures
            r.x == 0,
            r.text_color == TextColor::White,
            r.background_color == TextColor::Black,
    {
        Writer { x: 0, text_color: TextColor::White, background_color: TextColor::Black }
    }

    /// Sets the colors of what is written next.
    pub fn set_color(&mut self, text_color: TextColor, background_color: TextColor)
        ensures
            final(self).x == old(self).x,
            final(self).text_color == text_color,
            final(self).background_color == background_color,
    {
        self.text_color = text_color;
        self.background_color = background_color;
    }

    /// Starts a new row: scrolls and goes back to the first column.
    pub fn new_line(&mut self, screen: &mut ScreenChars)
        requires
            old(screen).wf(),
        ensures
            final(self).x == 0,
            final(self).text_color == old(self).text_color,
            final(self).background_color == old(self).background_color,
            final(screen).wf(),
            final(screen).width() == old(screen).width(),
            final(screen).height() == old(screen).height(),
            final(screen)@ == scrolled(old(screen)@, old(screen).width()),
    {
        self.x = 0;
        screen.scroll();
    }

    /// Writes one byte to the bottom row: a newline scrolls, a carriage return
    /// blanks the row and goes back to its start, any other byte is drawn at the
    /// cursor, which moves right and wraps to a new row at the end.
    pub fn write_byte(&mut self, screen: &mut ScreenChars, c: u8)
        requires
            old(screen).wf(),
            old(self).x < old(screen).width(),
        ensures
            final(screen).wf(),
            final(screen).width() == old(screen).width(),
            final(screen).height() == old(screen).height(),
            final(self).x < final(screen).width(),
            final(self).text_color == old(self).text_color,
            final(self).background_color == old(self).background_color,
            ({
                let w = old(screen).width();
                let h = old(screen).height();
                let cell = (c, old(self).text_color, old(self).background_color);
                if c == 10 {
                    final(self).x == 0 && final(screen)@ == scrolled(old(screen)@, w)
                } else if c == 13 {
                    final(self).x == 0 && final(screen)@ == with_bottom_row(
                        old(screen)@,
                        w,
                        (32u8, old(self).text_color, old(self).background_color),
                    )
                } else {
                    let drawn = old(screen)@.update(old(self).x + w * (h - 1), cell);
                    if old(self).x + 1 >= w {
                        final(self).x == 0 && final(screen)@ == scrolled(drawn, w)
                    } else {
                        final(self).x == old(self).x + 1 && final(screen)@ == drawn
                    }
                }
            }),
    {
        if c == 10u8 {
            self.new_line(screen);
            return;
        }
        let w = screen.get_screen_width_chars();
        let h = screen.get_screen_height_chars();
        if c == 13u8 {
            self.x = 0;
            let mut x: usize = 0;
            proof {
                assert(w * (h - 1) + w == w * h) by (nonlinear_arith);
            }
            while x < w
                invariant
                    screen.wf(),
                    screen.width() == w,
                    screen.height() == h,
                    w == old(screen).width(),
                    h == old(screen).height(),
                    w * (h - 1) + w == w * h,
                    x <= w,
                    screen@.len() == old(screen)@.len(),
                    forall|k: int| 0 <= k < w * (h - 1) ==> screen@[k] == old(screen)@[k],
                    forall|k: int| w * (h - 1) <= k < w * (h - 1) + x ==> screen@[k] == (32u8, self.text_color, self.background_color),
                    forall|k: int| w * (h - 1) + x <= k < w * h ==> screen@[k] == old(screen)@[k],
                    self.text_color == old(self).text_color,
                    self.background_color == old(self).background_color,
                    self.x == 0,
                decreases w - x,
            {
                screen.set_char(x, h - 1, 32u8, self.text_color, self.background_color);
                x = x + 1;
            }
            assert(screen@ =~= with_bottom_row(old(screen)@, w as int, (32u8, self.text_color, self.background_color)));
            return;
        }
        screen.set_char(self.x, h - 1, c, self.text_color, self.background_color);
        self.x = self.x + 1;
        if self.x >= w {
            self.new_line(screen);
        }
    }

    /// Moves the cursor one column left, unless it is at the start of the row.
    pub fn move_cursor_back(&mut self)
        ensures
            final(self).x == (if old(self).x != 0 { old(self).x - 1 } else { 0 }),
            final(self).text_color == old(self).text_color,
            final(self).background_color == old(self).background_color,
    {
        if self.x != 0 {
            self.x = self.x - 1;
        }
    }
}

/// Sets the colors of what is printed next.
pub fn set_print_color(writer: &mut Writer, text_color: TextColor, background_color: TextColor)
    ensures
        final(writer).x == old(writer).x,
        final(writer).text_color == text_color,
        final(writer).background_color == background_color,
{
    writer.set_color(text_color, background_color);
}

/// Goes back to white on black.
pub fn reset_print_color(writer: &mut Writer)
    ensures
        final(writer).x == old(writer).x,
        final(writer).text_color == TextColor::White,
        final(writer).background_color == TextColor::Black,
{
    writer.set_color(TextColor::White, TextColor::Black);
}

/// Moves the print cursor one column left, unless it is at the start of the row.
pub fn move_cursor_back(writer: &mut Writer)
    ensures
        final(writer).x == (if old(writer).x != 0 { old(writer).x - 1 } else { 0 }),
        final(writer).text_color == old(writer).text_color,
        final(writer).background_color == old(writer).background_color,
{
    writer.move_cursor_back();
}

/// Ticks between screen refreshes.
pub const PRINT_REFRESH_INTERVAL: u64 = 50;

/// Whether the screen is due for a refresh: only core 0 refreshes, only with
/// interrupts on, and only when more than the interval has passed since the last
/// refresh. When it is, the time of the last refresh becomes `ticks`.
pub fn check_screen_refresh_for_print(core_id: u64, ticks: u64, last_refresh: &mut u64, interrupts_on: bool) -> (r: bool)
    requires
        *old(last_refresh) <= ticks,
    ensures
        r == (core_id == 0 && ticks - *old(last_refresh) > PRINT_REFRESH_INTERVAL && interrupts_on),
        *final(last_refresh) == (if r { ticks } else { *old(last_refresh) }),
{
    if core_id != 0 {
        return false;
    }
    if ticks - *last_refresh > PRINT_REFRESH_INTERVAL && interrupts_on {
        *last_refresh = ticks;
        true
    } else {
        false
    }
}

/// Pixels left blank around the text on every side of the screen.
pub const BORDER_PADDING: usize = 8;

/// A bitmap font for the 256 byte values: `height` rows of `width` pixels (at most
/// eight) per character, one byte per row, the leftmost pixel in bit `width - 1`.
pub struct Font {
    pub width: usize,
    pub height: usize,
    pub rows: Vec<u8>,
}

impl Font {
    /// The font has a row byte for each row of each of the 256 characters.
    pub open spec fn wf(&self) -> bool {
        &&& 1 <= self.width <= 8
        &&& 1 <= self.height
        &&& self.rows@.len() == 256 * self.height
    }
}

/// Pixel (`x`, `y`) of the glyph of `c` is drawn in the text color.
pub open spec fn glyph_bit(f: &Font, c: u8, x: int, y: int) -> bool {
    f.rows@[c * f.height + y] & (1u8 << ((f.width - x - 1) as u8)) != 0u8
}

/// The screen's pixels, row after row, each as 0x00RRGGBB.
pub struct Framebuffer {
    pub width: usize,
    pub height: usize,
    pub pixels: Vec<u32>,
}

impl Framebuffer {
    /// There is one pixel for each column of each row.
    pub open spec fn wf(&self) -> bool {
        self.pixels@.len() == self.width * self.height
    }
}

/// Pixel (`x`, `y`) of pixels `p` laid out in rows of `w`.
pub open spec fn pix(p: Seq<u32>, w: int, x: int, y: int) -> u32 {
    p[y * w + x]
}

/// The pixel value of an RGB color.
pub open spec fn rgb_value(c: (u8, u8, u8)) -> u32 {
    (c.0 * 0x1_0000 + c.1 * 0x100 + c.2) as u32
}

/// A pixel of a row layout has one index, and indices of the screen are in range.
proof fn lemma_pixel_index(w: int, h: int, x1: int, y1: int, x2: int, y2: int)
    requires
        0 <= x1 < w,
        0 <= x2 < w,
        0 <= y1 < h,
        0 <= y2 < h,
    ensures
        0 <= y1 * w + x1 < w * h,
        (y1 * w + x1 == y2 * w + x2) <==> (x1 == x2 && y1 == y2),
{
    assert(0 <= y1 * w + x1 < w * h) by (nonlinear_arith)
        requires
            0 <= x1 < w,
            0 <= y1 < h,
    ;
    if y1 * w + x1 == y2 * w + x2 {
        assert(x1 == x2 && y1 == y2) by (nonlinear_arith)
            requires
                0 <= x1 < w,
                0 <= x2 < w,
                0 <= y1,
                0 <= y2,
                y1 * w + x1 == y2 * w + x2,
        ;
    }
}

/// Sets pixel (`x`, `y`) to `color`.
pub fn set_pixel(fb: &mut Framebuffer, x: usize, y: usize, color: (u8, u8, u8))
    requires
        old(fb).wf(),
        x < old(fb).width,
        y < old(fb).height,
    ensures
        final(fb).wf(),
        final(fb).width == old(fb).width,
        final(fb).height == old(fb).height,
        forall|px: int, py: int|
            0 <= px < old(fb).width && 0 <= py < old(fb).height ==> #[trigger] pix(final(fb).pixels@, old(fb).width as int, px, py)
                == if px == x && py == y {
                rgb_value(color)
            } else {
                pix(old(fb).pixels@, old(fb).width as int, px, py)
            },
{
    let n = fb.pixels.len();
    proof {
        lemma_pixel_index(fb.width as int, fb.height as int, x as int, y as int, 0, 0);
    }
    let offset = y * fb.width + x;
    let v: u32 = ((color.0 as u32) << 16u32) | ((color.1 as u32) << 8u32) | color.2 as u32;
    let (r, g, b) = color;
    assert(v == r as u32 * 0x1_0000 + g as u32 * 0x100 + b as u32) by (bit_vector)
        requires
            v == ((r as u32) << 16u32) | ((g as u32) << 8u32) | b as u32,
    ;
    assert(v == rgb_value(color));
    let ghost before = fb.pixels@;
    fb.pixels.set(offset, v);
    proof {
        assert forall|px: int, py: int| 0 <= px < fb.width && 0 <= py < fb.height implies #[trigger] pix(fb.pixels@, fb.width as int, px, py)
            == if px == x && py == y {
            rgb_value(color)
        } else {
            pix(old(fb).pixels@, fb.width as int, px, py)
        } by {
            lemma_pixel_index(fb.width as int, fb.height as int, px, py, x as int, y as int);
            assert(fb.pixels@ == before.update(offset as int, v));
            if px == x && py == y {
                assert(py * fb.width + px == offset);
            }
        }
    }
}

/// Pixel (`px`, `py`) lies in the block of `w` by `h` pixels whose top left corner is
/// (`sx`, `sy`).
pub open spec fn in_block(px: int, py: int, sx: int, sy: int, w: int, h: int) -> bool {
    sx <= px < sx + w && sy <= py < sy + h
}

/// What drawing character `c` at (`sx`, `sy`) puts at pixel (`px`, `py`) of its block.
pub open spec fn glyph_pixel(f: &Font, c: u8, px: int, py: int, sx: int, sy: int, fg: (u8, u8, u8), bg: (u8, u8, u8)) -> u32 {
    rgb_value(if glyph_bit(f, c, px - sx, py - sy) { fg } else { bg })
}

/// Draws character `c` in cell (`x`, `y`) of the text grid: each pixel of the cell's
/// block takes the text color where the glyph has its bit set, the background color
/// elsewhere.
pub fn draw_char(
    fb: &mut Framebuffer,
    font: &Font,
    x: usize,
    y: usize,
    c: u8,
    text_color: (u8, u8, u8),
    background_color: (u8, u8, u8),
)
    requires
        old(fb).wf(),
        font.wf(),
        BORDER_PADDING + (x + 1) * font.width <= old(fb).width,
        BORDER_PADDING + (y + 1) * font.height <= old(fb).height,
    ensures
        final(fb).wf(),
        final(fb).width == old(fb).width,
        final(fb).height == old(fb).height,
        forall|px: int, py: int|
            0 <= px < old(fb).width && 0 <= py < old(fb).height ==> #[trigger] pix(final(fb).pixels@, old(fb).width as int, px, py)
                == if in_block(px, py, BORDER_PADDING + x * font.width, BORDER_PADDING + y * font.height, font.width as int, font.height as int) {
                glyph_pixel(font, c, px, py, BORDER_PADDING + x * font.width, BORDER_PADDING + y * font.height, text_color, background_color)
            } else {
                pix(old(fb).pixels@, old(fb).width as int, px, py)
            },
{
    let ghost w = fb.width as int;
    let ghost old_pixels = fb.pixels@;
    let nrows = font.rows.len();
    proof {
        assert(x * font.width + font.width + BORDER_PADDING <= fb.width && y * font.height + font.height + BORDER_PADDING
            <= fb.height) by (nonlinear_arith)
            requires
                BORDER_PADDING + (x + 1) * font.width <= fb.width,
                BORDER_PADDING + (y + 1) * font.height <= fb.height,
        ;
        assert(c * font.height + font.height <= 256 * font.height) by (nonlinear_arith)
            requires
                c < 256,
        ;
    }
    let sx = x * font.width + BORDER_PADDING;
    let sy = y * font.height + BORDER_PADDING;
    let mut cy: usize = 0;
    while cy < font.height
        invariant
            fb.wf(),
            font.wf(),
            fb.width == w,
            fb.height == old(fb).height,
            old_pixels == old(fb).pixels@,
            sx == BORDER_PADDING + x * font.width,
            sy == BORDER_PADDING + y * font.height,
            sx + font.width <= fb.width,
            sy + font.height <= fb.height,
            c * font.height + font.height <= 256 * font.height,
            font.rows@.len() <= usize::MAX,
            cy <= font.height,
            forall|px: int, py: int|
                0 <= px < w && 0 <= py < fb.height ==> #[trigger] pix(fb.pixels@, w, px, py) == if in_block(px, py, sx as int, sy as int, font.width as int, font.height as int) && py - sy < cy {
                    glyph_pixel(font, c, px, py, sx as int, sy as int, text_color, background_color)
                } else {
                    pix(old_pixels, w, px, py)
                },
        decreases font.height - cy,
    {
        let mut cx: usize = 0;
        while cx < font.width
            invariant
                fb.wf(),
                font.wf(),
                fb.width == w,
                fb.height == old(fb).height,
                sx + font.width <= fb.width,
                sy + font.height <= fb.height,
                c * font.height + font.height <= 256 * font.height,
                font.rows@.len() <= usize::MAX,
                cy < font.height,
                cx <= font.width,
                forall|px: int, py: int|
                    0 <= px < w && 0 <= py < fb.height ==> #[trigger] pix(fb.pixels@, w, px, py) == if in_block(px, py, sx as int, sy as int, font.width as int, font.height as int) && (py - sy < cy || (py - sy == cy && px - sx < cx)) {
                        glyph_pixel(font, c, px, py, sx as int, sy as int, text_color, background_color)
                    } else {
                        pix(old_pixels, w, px, py)
                    },
            decreases font.width - cx,
        {
            let row = font.rows[c as usize * font.height + cy];
            let bit = row & (1u8 << ((font.width - cx - 1) as u8)) != 0;
            let color = if bit { text_color } else { background_color };
            let ghost before = fb.pixels@;
            set_pixel(fb, sx + cx, sy + cy, color);
            proof {
                assert(glyph_bit(font, c, cx as int, cy as int) == bit);
            }
            cx = cx + 1;
        }
        cy = cy + 1;
    }
}

/// Pixel (`px`, `py`) shows text: it lies in the blocks of the `wc` by `hc` grid of
/// cells of `fw` by `fh` pixels inside the border.
pub open spec fn in_text_area(px: int, py: int, wc: int, hc: int, fw: int, fh: int) -> bool {
    &&& BORDER_PADDING <= px < BORDER_PADDING + wc * fw
    &&& BORDER_PADDING <= py < BORDER_PADDING + hc * fh
}

/// The pixel (`px`, `py`) of the text area that shows `cells` (rows of `wc` cells)
/// in `font`: the pixel of the glyph of the cell that covers it, in that cell's
/// colors.
pub open spec fn text_pixel(cells: Seq<Cell>, wc: int, font: &Font, px: int, py: int) -> u32 {
    let fw = font.width as int;
    let fh = font.height as int;
    let cx = (px - BORDER_PADDING) / fw;
    let cy = (py - BORDER_PADDING) / fh;
    let cell = cells[cx + wc * cy];
    rgb_value(
        if glyph_bit(font, cell.0, (px - BORDER_PADDING) % fw, (py - BORDER_PADDING) % fh) {
            spec_text_color_to_rgb(cell.1)
        } else {
            spec_text_color_to_rgb(cell.2)
        },
    )
}

/// The cell of a coordinate: `p` lies in cell `i` of cells of `size` exactly when
/// `p / size` is `i`, and then `p % size` is its place in the cell.
proof fn lemma_cell_of(p: int, size: int, i: int)
    requires
        0 <= p,
        0 <= i,
        0 < size,
    ensures
        (i * size <= p < i * size + size) <==> p / size == i,
        p / size == i ==> p % size == p - i * size,
{
    vstd::arithmetic::div_mod::lemma_fundamental_div_mod(p, size);
    assert((i * size <= p < i * size + size) <==> p / size == i) by (nonlinear_arith)
        requires
            p == size * (p / size) + p % size,
            0 <= p % size < size,
            0 <= p,
            0 <= i,
            0 < size,
    ;
    if p / size == i {
        assert(size * i == i * size) by (nonlinear_arith);
    }
}

/// The cells of a grid of `n` cells of `size` cover coordinates below `n * size`.
proof fn lemma_cell_bound(p: int, size: int, n: int)
    requires
        0 <= p < n * size,
        0 < size,
    ensures
        0 <= p / size < n,
{
    vstd::arithmetic::div_mod::lemma_fundamental_div_mod(p, size);
    assert(0 <= p / size < n) by (nonlinear_arith)
        requires
            p == size * (p / size) + p % size,
            0 <= p % size < size,
            0 <= p < n * size,
            0 < size,
    ;
}

/// Draws every cell of `screen` on the framebuffer in `font`: each pixel of the
/// text area shows the glyph of its cell in the cell's colors; the border keeps its
/// pixels.
pub fn render_text_to_screen(screen: &ScreenChars, font: &Font, fb: &mut Framebuffer)
    requires
        screen.wf(),
        font.wf(),
        old(fb).wf(),
        BORDER_PADDING + screen.width() * font.width <= old(fb).width,
        BORDER_PADDING + screen.height() * font.height <= old(fb).height,
    ensures
        final(fb).wf(),
        final(fb).width == old(fb).width,
        final(fb).height == old(fb).height,
        forall|px: int, py: int|
            0 <= px < old(fb).width && 0 <= py < old(fb).height ==> #[trigger] pix(final(fb).pixels@, old(fb).width as int, px, py)
                == if in_text_area(px, py, screen.width(), screen.height(), font.width as int, font.height as int) {
                text_pixel(screen@, screen.width(), font, px, py)
            } else {
                pix(old(fb).pixels@, old(fb).width as int, px, py)
            },
{
    let ghost w = fb.width as int;
    let ghost old_pixels = fb.pixels@;
    let ghost wc = screen.width();
    let ghost hc = screen.height();
    let ghost fw = font.width as int;
    let ghost fh = font.height as int;
    let width_chars = screen.get_screen_width_chars();
    let height_chars = screen.get_screen_height_chars();
    let mut y: usize = 0;
    while y < height_chars
        invariant
            screen.wf(),
            font.wf(),
            fb.wf(),
            fb.width == w,
            fb.height == old(fb).height,
            old_pixels == old(fb).pixels@,
            wc == screen.width() == width_chars,
            hc == screen.height() == height_chars,
            fw == font.width,
            fh == font.height,
            BORDER_PADDING + wc * fw <= w,
            BORDER_PADDING + hc * fh <= fb.height,
            y <= hc,
            forall|px: int, py: int|
                0 <= px < w && 0 <= py < fb.height ==> #[trigger] pix(fb.pixels@, w, px, py) == if in_text_area(px, py, wc, hc, fw, fh) && (py - BORDER_PADDING) / fh < y {
                    text_pixel(screen@, wc, font, px, py)
                } else {
                    pix(old_pixels, w, px, py)
                },
        decreases hc - y,
    {
        let mut x: usize = 0;
        while x < width_chars
            invariant
                screen.wf(),
                font.wf(),
                fb.wf(),
                fb.width == w,
                fb.height == old(fb).height,
                wc == screen.width() == width_chars,
                hc == screen.height() == height_chars,
                fw == font.width,
                fh == font.height,
                BORDER_PADDING + wc * fw <= w,
                BORDER_PADDING + hc * fh <= fb.height,
                y < hc,
                x <= wc,
                forall|px: int, py: int|
                    0 <= px < w && 0 <= py < fb.height ==> #[trigger] pix(fb.pixels@, w, px, py) == if in_text_area(px, py, wc, hc, fw, fh) && ((py - BORDER_PADDING) / fh < y || ((py - BORDER_PADDING) / fh == y && (px - BORDER_PADDING) / fw < x)) {
                        text_pixel(screen@, wc, font, px, py)
                    } else {
                        pix(old_pixels, w, px, py)
                    },
            decreases wc - x,
        {
            let cell = screen.get_char(x, y);
            assert(cell == screen@[x + wc * y]);
            let fg = text_color_to_rgb(cell.1);
            let bg = text_color_to_rgb(cell.2);
            proof {
                assert(BORDER_PADDING + (x + 1) * fw <= w && BORDER_PADDING + (y + 1) * fh <= fb.height) by (nonlinear_arith)
                    requires
                        x < wc,
                        y < hc,
                        BORDER_PADDING + wc * fw <= w,
                        BORDER_PADDING + hc * fh <= fb.height,
                        fw >= 1,
                        fh >= 1,
                ;
            }
            let ghost before = fb.pixels@;
            draw_char(fb, font, x, y, cell.0, fg, bg);
            proof {
                let sx = BORDER_PADDING + x * fw;
                let sy = BORDER_PADDING + y * fh;
                assert forall|px: int, py: int| 0 <= px < w && 0 <= py < fb.height implies #[trigger] pix(fb.pixels@, w, px, py) == if in_text_area(px, py, wc, hc, fw, fh) && ((py - BORDER_PADDING) / fh < y || ((py - BORDER_PADDING) / fh == y && (px - BORDER_PADDING) / fw < x + 1)) {
                    text_pixel(screen@, wc, font, px, py)
                } else {
                    pix(old_pixels, w, px, py)
                } by {
                    assert(pix(fb.pixels@, w, px, py) == if in_block(px, py, sx, sy, fw, fh) {
                        glyph_pixel(font, cell.0, px, py, sx, sy, fg, bg)
                    } else {
                        pix(before, w, px, py)
                    });
                    if px >= BORDER_PADDING && py >= BORDER_PADDING {
                        lemma_cell_of(px - BORDER_PADDING, fw, x as int);
                        lemma_cell_of(py - BORDER_PADDING, fh, y as int);
                        assert(x * fw == fw * x && y * fh == fh * y) by (nonlinear_arith);
                    }
                    if in_block(px, py, sx, sy, fw, fh) {
                        assert(in_text_area(px, py, wc, hc, fw, fh)) by {
                            assert(x * fw + fw <= wc * fw && y * fh + fh <= hc * fh) by (nonlinear_arith)
                                requires
                                    x < wc,
                                    y < hc,
                                    fw >= 1,
                                    fh >= 1,
                            ;
                        }
                        assert(cell == screen@[x + wc * y]);
                    }
                }
            }
            x = x + 1;
        }
        proof {
            assert forall|px: int, py: int| 0 <= px < w && 0 <= py < fb.height implies #[trigger] pix(fb.pixels@, w, px, py) == if in_text_area(px, py, wc, hc, fw, fh) && (py - BORDER_PADDING) / fh < y + 1 {
                text_pixel(screen@, wc, font, px, py)
            } else {
                pix(old_pixels, w, px, py)
            } by {
                if in_text_area(px, py, wc, hc, fw, fh) {
                    lemma_cell_bound(px - BORDER_PADDING, fw, wc);
                }
            }
        }
        y = y + 1;
    }
    proof {
        assert forall|px: int, py: int| 0 <= px < w && 0 <= py < fb.height && in_text_area(px, py, wc, hc, fw, fh) implies (py
            - BORDER_PADDING) / fh < hc by {
            lemma_cell_bound(py - BORDER_PADDING, fh, hc);
        }
    }
}

/// The text grid for a screen of `screen_width` by `screen_height` pixels: as many
/// cells of `char_height` pixels as fit inside the border, across and down, all
/// blank.
pub fn init_text_renderer(screen_width: usize, screen_height: usize, char_height: usize) -> (r: ScreenChars)
    requires
        char_height >= 1,
        screen_width >= 2 * BORDER_PADDING + char_height,
        screen_height >= 2 * BORDER_PADDING + char_height,
        ((screen_width - 2 * BORDER_PADDING) / char_height as int) * ((screen_height - 2 * BORDER_PADDING) / char_height as int) <= usize::MAX,
    ensures
        r.wf(),
        r.width() == (screen_width - 2 * BORDER_PADDING) / char_height as int,
        r.height() == (screen_height - 2 * BORDER_PADDING) / char_height as int,
        r@ == Seq::new((r.width() * r.height()) as nat, |i: int| blank_cell()),
{
    let width_chars = (screen_width - 2 * BORDER_PADDING) / char_height;
    let height_chars = (screen_height - 2 * BORDER_PADDING) / char_height;
    assert(width_chars >= 1 && height_chars >= 1) by (nonlinear_arith)
        requires
            width_chars == (screen_width - 2 * BORDER_PADDING) / char_height as int,
            height_chars == (screen_height - 2 * BORDER_PADDING) / char_height as int,
            screen_width - 2 * BORDER_PADDING >= char_height,
            screen_height - 2 * BORDER_PADDING >= char_height,
            char_height >= 1,
    ;
    ScreenChars::new(width_chars, height_chars)
}

} // verus!
